//! Moving the vectors around a split or merged cluster.

use vstd::prelude::*;

use crate::phrase::say;
use crate::documents;
use crate::error::{corrupt, Error};
use crate::manifest::{VectorMaintenanceAction, VectorMaintenanceTask};
use crate::schema::DistanceMetric;
use crate::sorted;
use crate::strings;
use crate::sorted::{SortedMap, SortedSet};
use crate::value::{copy_id, Document, Id, IdView};
use crate::vector;
use crate::vector::index;
use crate::vector::index::{copy_vector, copy_vectors, make_index};
use crate::vector::plan;
use crate::vector::upkeep;
use crate::vector::upkeep::{check_segment, cluster_list, home_of, live_in, nearest_cluster, topology_equal, Row};
use crate::vector::{EntryView, VectorEntry, VectorIndex, VectorVersionMap};

verus! {

/// A vector that goes to another cluster.
#[derive(Clone, Debug, PartialEq, Eq)]
pub struct VectorReassignment {
    pub id: Id,
    pub from_cluster_id: u32,
    pub to_cluster_id: u32,
    pub previous_version: u64,
    pub new_version: u64,
}

/// An index of the vectors that go to other clusters, with the versions that are
/// in force once it is appended.
#[derive(Debug)]
pub struct VectorReassignmentDelta {
    pub index: VectorIndex,
    pub version_map: VectorVersionMap,
    pub reassignments: Vec<VectorReassignment>,
}

/// An index of the vectors of some clusters, formed anew, with the versions that
/// are in force once it is appended.
#[derive(Debug)]
pub struct VectorLocalRebuildDelta {
    pub index: VectorIndex,
    pub version_map: VectorVersionMap,
    pub rebuilt_ids: Vec<Id>,
    pub rebuilt_cluster_ids: Vec<u32>,
}

/// The clusters that a piece of work is about.
pub open spec fn task_clusters(task: VectorMaintenanceTask) -> Set<u32> {
    let near = task.neighbor_cluster_ids@.to_set().insert(task.cluster_id);
    match task.partner_cluster_id {
        Some(partner) => near.insert(partner),
        None => near,
    }
}

/// Every cluster is one of the index.
pub open spec fn clusters_exist(clusters: Set<u32>, n: int) -> bool {
    forall|c: u32| #[trigger] clusters.contains(c) ==> c < n
}

/// What is said of the lowest cluster that is not one of the index.
pub open spec fn missing_cluster(clusters: Set<u32>, n: int, words: Seq<char>) -> bool {
    exists|c: u32| #[trigger] is_lowest_missing(clusters, n, c) && words
        == "vector maintenance task references missing cluster "@ + strings::decimal(c as nat)
}

/// The cluster is the lowest that is not one of the index.
pub open spec fn is_lowest_missing(clusters: Set<u32>, n: int, c: u32) -> bool {
    &&& clusters.contains(c)
    &&& c >= n
    &&& forall|d: u32| #[trigger] clusters.contains(d) && d >= n ==> c <= d
}

/// The clusters that a piece of work is about, in order.
pub fn task_cluster_neighborhood(base: &VectorIndex, task: &VectorMaintenanceTask) -> (r: Result<
    Vec<u32>,
    Error,
>)
    ensures
        r is Ok <==> clusters_exist(task_clusters(*task), base.centroids@.len() as int),
        r is Err ==> r->Err_0 is Corrupt && missing_cluster(
            task_clusters(*task),
            base.centroids@.len() as int,
            r->Err_0->Corrupt_0@,
        ),
        r matches Ok(ids) ==> {
            &&& ids@.to_set() == task_clusters(*task)
            &&& sorted::keys_sorted::<u32>(ids@)
        },
{
    let mut set: SortedSet<u32> = SortedSet::new();
    set.insert(task.cluster_id);
    if let Some(partner) = task.partner_cluster_id {
        set.insert(partner);
    }
    let ghost start = set.set();
    let near = &task.neighbor_cluster_ids;
    let mut i: usize = 0;
    assert(near@.take(0).to_set() =~= Set::empty());
    while i < near.len()
        invariant
            i <= near@.len(),
            set.wf(),
            set.set() == start.union(near@.take(i as int).to_set()),
        decreases near@.len() - i,
    {
        set.insert(near[i]);
        assert(start.union(near@.take(i + 1).to_set()) =~= start.union(
            near@.take(i as int).to_set(),
        ).insert(near@[i as int])) by {
            assert(near@.take(i + 1) =~= near@.take(i as int).push(near@[i as int]));
            assert forall|c: u32| near@.take(i + 1).contains(c) == (near@.take(i as int).contains(c)
                || c == near@[i as int]) by {
                if near@.take(i as int).contains(c) {
                    let k = near@.take(i as int).index_of(c);
                    assert(near@.take(i + 1)[k] == c);
                }
                if c == near@[i as int] {
                    assert(near@.take(i + 1)[i as int] == c);
                }
                if near@.take(i + 1).contains(c) {
                    let k = near@.take(i + 1).index_of(c);
                    if k < i {
                        assert(near@.take(i as int)[k] == c);
                    }
                }
            }
        }
        i = i + 1;
    }
    assert(near@.take(i as int) =~= near@);
    assert(set.set() =~= task_clusters(*task));
    let mut ids: Vec<u32> = Vec::new();
    let n = set.len();
    let mut k: usize = 0;
    while k < n
        invariant
            k <= n,
            n == set.items().len(),
            set.wf(),
            set.set() == task_clusters(*task),
            ids@ == set.items().take(k as int),
            forall|j: int| 0 <= j < k ==> (#[trigger] ids@[j]) < base.centroids@.len(),
        decreases n - k,
    {
        let c: u32 = *set.item_at(k);
        assert(set.set().contains(set.items()[k as int]));
        if c as usize >= base.centroids.len() {
            proof {
                set.lemma_sorted();
                assert forall|d: u32| #[trigger] task_clusters(*task).contains(d) && d
                    >= base.centroids@.len() implies c <= d by {
                    let j = set.items().index_of(d);
                    assert(set.items().contains(d));
                    assert(set.items()[j] == d);
                    if j < k {
                        assert(ids@[j] == d);
                    }
                }
                assert(is_lowest_missing(task_clusters(*task), base.centroids@.len() as int, c));
            }
            return Err(Error::Corrupt(
                    say("vector maintenance task references missing cluster ").number(
                        c as u64,
                    ).done(),
                ));
        }
        ids.push(c);
        k = k + 1;
        assert(ids@ =~= set.items().take(k as int));
    }
    assert(ids@ =~= set.items());
    proof {
        set.lemma_sorted();
        assert forall|c: u32| #[trigger] task_clusters(*task).contains(c) implies c
            < base.centroids@.len() by {
            assert(set.items().contains(c));
            let j = ids@.index_of(c);
            assert(ids@[j] == c);
        }
    }
    Ok(ids)
}

/// The live rows of some clusters, by key: of the rows of one key the first.
pub open spec fn candidates_of(rows: Seq<Row>, clusters: Set<u32>) -> Map<IdView, Row>
    decreases rows.len(),
{
    if rows.len() == 0 {
        Map::empty()
    } else {
        let front = candidates_of(rows.drop_last(), clusters);
        let row = rows.last();
        if row.live && clusters.contains(row.home) && !front.dom().contains(row.entry.id@) {
            front.insert(row.entry.id@, row)
        } else {
            front
        }
    }
}

/// Where a candidate is: in the base index or, counted from one, in an appended
/// segment.
struct Candidate {
    segment: usize,
    posting: usize,
    place: usize,
    cluster: u32,
}

spec fn segment_at(base: VectorIndex, appends: Seq<VectorIndex>, i: int) -> VectorIndex {
    if i == 0 {
        base
    } else {
        appends[i - 1]
    }
}

/// A candidate is where a row is.
spec fn locates(
    base: VectorIndex,
    appends: Seq<VectorIndex>,
    at: Candidate,
    row: Row,
) -> bool {
    &&& at.segment <= appends.len()
    &&& at.posting < segment_at(base, appends, at.segment as int).postings@.len()
    &&& at.place < segment_at(
        base,
        appends,
        at.segment as int,
    ).postings@[at.posting as int].vectors@.len()
    &&& row.entry == segment_at(
        base,
        appends,
        at.segment as int,
    ).postings@[at.posting as int].vectors@[at.place as int]
    &&& row.home == at.cluster
}

/// The candidates found are those of some rows.
spec fn found_are(
    base: VectorIndex,
    appends: Seq<VectorIndex>,
    found: SortedMap<Id, Candidate>,
    rows: Map<IdView, Row>,
) -> bool {
    &&& found.wf()
    &&& forall|id: IdView| #[trigger] found.map().dom().contains(id) <==> rows.dom().contains(id)
    &&& forall|id: IdView|
        found.map().dom().contains(id) ==> locates(
            base,
            appends,
            #[trigger] found.map()[id],
            rows[id],
        )
}

/// Looks for candidates in a segment.
fn collect_candidates<F: Copy + Fn(&Vec<u32>, &Vec<u32>, DistanceMetric) -> Result<u32, Error>>(
    base: &VectorIndex,
    appends: &Vec<VectorIndex>,
    at: usize,
    clusters: &SortedSet<u32>,
    versions: &VectorVersionMap,
    found: &mut SortedMap<Id, Candidate>,
    score: F,
    earlier: Ghost<Seq<Row>>,
) -> (r: Result<Ghost<Seq<Row>>, Error>)
    requires
        vector::can_score(score),
        versions.wf(),
        clusters.wf(),
        base.centroids@.len() <= u32::MAX,
        at <= appends@.len(),
        found_are(*base, appends@, *old(found), candidates_of(earlier@, clusters.set())),
    ensures
        match r {
            Ok(rows) => {
                &&& upkeep::segment_fits(*base, segment_at(*base, appends@, at as int))
                &&& upkeep::are_rows(
                    score,
                    *base,
                    segment_at(*base, appends@, at as int),
                    at > 0,
                    Some(versions),
                    true,
                    upkeep::places_of(segment_at(*base, appends@, at as int).postings@),
                    rows@,
                )
                &&& found_are(
                    *base,
                    appends@,
                    *final(found),
                    candidates_of(earlier@ + rows@, clusters.set()),
                )
            },
            Err(e) => upkeep::segment_fails(
                score,
                *base,
                segment_at(*base, appends@, at as int),
                Some(versions),
                true,
                e,
            ),
        },
{
    let segment: &VectorIndex = if at == 0 {
        base
    } else {
        &appends[at - 1]
    };
    assert(*segment == segment_at(*base, appends@, at as int));
    match check_segment(base, segment) {
        Ok(_) => {},
        Err(e) => {
            return Err(e);
        },
    }
    let append: bool = at > 0;
    let same = topology_equal(&segment.centroids, &base.centroids);
    let all = cluster_list(base.centroids.len());
    let ghost ps = segment.postings@;
    let ghost mut rows: Seq<Row> = Seq::empty();
    let mut p: usize = 0;
    assert(ps.take(0) =~= Seq::empty());
    assert(upkeep::places_upto(ps, 0, 0) =~= Seq::empty());
    assert(earlier@ + rows =~= earlier@);
    while p < segment.postings.len()
        invariant
            p <= ps.len(),
            ps == segment.postings@,
            *segment == segment_at(*base, appends@, at as int),
            at <= appends@.len(),
            append == (at > 0),
            upkeep::segment_fits(*base, *segment),
            vector::can_score(score),
            versions.wf(),
            clusters.wf(),
            base.centroids@.len() <= u32::MAX,
            all@ == upkeep::all_clusters(base.centroids@.len() as int),
            same == upkeep::same_topology(segment.centroids@, base.centroids@),
            found_are(*base, appends@, *found, candidates_of(earlier@ + rows, clusters.set())),
            upkeep::are_rows(
                score,
                *base,
                *segment,
                append,
                Some(versions),
                true,
                upkeep::places_upto(ps, p as int, 0),
                rows,
            ),
        decreases ps.len() - p,
    {
        let mut l: usize = 0;
        while l < segment.postings[p].vectors.len()
            invariant
                l <= ps[p as int].vectors@.len(),
                p < ps.len(),
                ps == segment.postings@,
                *segment == segment_at(*base, appends@, at as int),
                at <= appends@.len(),
                append == (at > 0),
                upkeep::segment_fits(*base, *segment),
                vector::can_score(score),
                versions.wf(),
                clusters.wf(),
                base.centroids@.len() <= u32::MAX,
                all@ == upkeep::all_clusters(base.centroids@.len() as int),
                same == upkeep::same_topology(segment.centroids@, base.centroids@),
                found_are(*base, appends@, *found, candidates_of(earlier@ + rows, clusters.set())),
                upkeep::are_rows(
                    score,
                    *base,
                    *segment,
                    append,
                    Some(versions),
                    true,
                    upkeep::places_upto(ps, p as int, l as int),
                    rows,
                ),
            decreases ps[p as int].vectors@.len() - l,
        {
            let entry = &segment.postings[p].vectors[l];
            let live = live_in(Some(versions), &entry.id, entry.version);
            let mut home: u32 = 0;
            if live {
                home =
                match home_of(base, segment, same, &all, p, l, score) {
                    Ok(home) => home,
                    Err(e) => {
                        assert(upkeep::row_fails(
                            score,
                            *base,
                            *segment,
                            Some(versions),
                            true,
                            (p as int, l as int),
                            e,
                        ));
                        return Err(e);
                    },
                };
            }
            let ghost row = Row { entry: ps[p as int].vectors@[l as int], home, live, append };
            let ghost before = rows;
            let ghost had = candidates_of(earlier@ + rows, clusters.set());
            if live && clusters.contains(&home) && !found.contains_key(&entry.id) {
                found.insert(
                    copy_id(&entry.id),
                    Candidate { segment: at, posting: p, place: l, cluster: home },
                );
            }
            proof {
                upkeep::lemma_place_next(ps, p as int, l as int);
                assert((earlier@ + rows).push(row) =~= earlier@ + rows.push(row));
                assert((earlier@ + rows).push(row).drop_last() =~= earlier@ + rows);
                rows = rows.push(row);
                let places = upkeep::places_upto(ps, p as int, l + 1);
                assert(places.last() == (p as int, l as int));
                assert forall|i: int| 0 <= i < rows.len() implies upkeep::is_row(
                    score,
                    *base,
                    *segment,
                    append,
                    Some(versions),
                    true,
                    places[i],
                    #[trigger] rows[i],
                ) by {
                    if i < before.len() {
                        assert(rows[i] == before[i]);
                        assert(places[i] == upkeep::places_upto(ps, p as int, l as int)[i]);
                    }
                }
            }
            l = l + 1;
        }
        proof {
            upkeep::lemma_places_cluster(ps, p as int);
        }
        p = p + 1;
    }
    proof {
        assert(ps.take(p as int) =~= ps);
        assert(upkeep::places_upto(ps, p as int, 0) =~= upkeep::places_of(ps));
    }
    Ok(Ghost(rows))
}

/// Why the candidates cannot be found.
pub open spec fn collecting_fails<
    F: Fn(&Vec<u32>, &Vec<u32>, DistanceMetric) -> Result<u32, Error>,
>(
    score: F,
    base: VectorIndex,
    appends: Seq<VectorIndex>,
    versions: VectorVersionMap,
    e: Error,
) -> bool {
    ||| upkeep::segment_fails(score, base, base, Some(&versions), true, e)
    ||| exists|i: int|
        0 <= i < appends.len() && #[trigger] upkeep::segment_fails(
            score,
            base,
            appends[i],
            Some(&versions),
            true,
            e,
        )
}

/// The candidates of the base index and its segments.
fn all_candidates<F: Copy + Fn(&Vec<u32>, &Vec<u32>, DistanceMetric) -> Result<u32, Error>>(
    base: &VectorIndex,
    appends: &Vec<VectorIndex>,
    ids: &Vec<u32>,
    versions: &VectorVersionMap,
    score: F,
) -> (r: Result<(SortedMap<Id, Candidate>, Ghost<Seq<Row>>), Error>)
    requires
        vector::can_score(score),
        versions.wf(),
        base.centroids@.len() <= u32::MAX,
        appends@.len() < usize::MAX,
    ensures
        match r {
            Ok((found, rows)) => {
                &&& upkeep::all_rows(score, *base, appends@, Some(versions), true, rows@)
                &&& found_are(
                    *base,
                    appends@,
                    found,
                    candidates_of(rows@, ids@.to_set()),
                )
            },
            Err(e) => collecting_fails(score, *base, appends@, *versions, e),
        },
{
    let mut clusters: SortedSet<u32> = SortedSet::new();
    let mut i: usize = 0;
    assert(ids@.take(0).to_set() =~= Set::empty());
    while i < ids.len()
        invariant
            i <= ids@.len(),
            clusters.wf(),
            clusters.set() == ids@.take(i as int).to_set(),
        decreases ids@.len() - i,
    {
        clusters.insert(ids[i]);
        proof {
            assert(ids@.take(i + 1) =~= ids@.take(i as int).push(ids@[i as int]));
            assert forall|c: u32| ids@.take(i + 1).contains(c) == (ids@.take(i as int).contains(c)
                || c == ids@[i as int]) by {
                if ids@.take(i as int).contains(c) {
                    let k = ids@.take(i as int).index_of(c);
                    assert(ids@.take(i + 1)[k] == c);
                }
                if c == ids@[i as int] {
                    assert(ids@.take(i + 1)[i as int] == c);
                }
                if ids@.take(i + 1).contains(c) {
                    let k = ids@.take(i + 1).index_of(c);
                    if k < i {
                        assert(ids@.take(i as int)[k] == c);
                    }
                }
            }
            assert(ids@.take(i + 1).to_set() =~= ids@.take(i as int).to_set().insert(
                ids@[i as int],
            ));
        }
        i = i + 1;
    }
    assert(ids@.take(i as int) =~= ids@);
    let mut found: SortedMap<Id, Candidate> = SortedMap::new();
    let Ghost(first) = match collect_candidates(
        base,
        appends,
        0,
        &clusters,
        versions,
        &mut found,
        score,
        Ghost(Seq::empty()),
    ) {
        Ok(rows) => rows,
        Err(e) => {
            return Err(e);
        },
    };
    let ghost mut rows: Seq<Row> = first;
    assert(Seq::<Row>::empty() + first =~= first);
    assert(appends@.take(0) =~= Seq::empty());
    let mut k: usize = 0;
    while k < appends.len()
        invariant
            k <= appends@.len(),
            appends@.len() < usize::MAX,
            vector::can_score(score),
            versions.wf(),
            clusters.wf(),
            clusters.set() == ids@.to_set(),
            base.centroids@.len() <= u32::MAX,
            upkeep::all_rows(
                score,
                *base,
                appends@.take(k as int),
                Some(versions),
                true,
                rows,
            ),
            found_are(*base, appends@, found, candidates_of(rows, ids@.to_set())),
        decreases appends@.len() - k,
    {
        proof {
            assert(appends@.take(k + 1).drop_last() =~= appends@.take(k as int));
            assert(appends@.take(k + 1).last() == appends@[k as int]);
        }
        let Ghost(more) = match collect_candidates(
            base,
            appends,
            k + 1,
            &clusters,
            versions,
            &mut found,
            score,
            Ghost(rows),
        ) {
            Ok(more) => more,
            Err(e) => {
                assert(upkeep::segment_fails(
                    score,
                    *base,
                    appends@[k as int],
                    Some(versions),
                    true,
                    e,
                ));
                return Err(e);
            },
        };
        proof {
            let next = rows + more;
            let n = more.len();
            assert(next.skip(next.len() - n) =~= more);
            assert(next.take(next.len() - n) =~= rows);
            rows = next;
        }
        k = k + 1;
    }
    assert(appends@.take(k as int) =~= appends@);
    Ok((found, Ghost(rows)))
}

/// A vector that goes to another cluster.
pub struct MoveView {
    pub id: IdView,
    pub vector: Seq<u32>,
    pub from: u32,
    pub to: u32,
    pub version: u64,
}

/// The moves of the first `n` of some candidates: those whose nearest cluster is
/// another one.
pub open spec fn moves_of(
    ids: Seq<IdView>,
    rows: Map<IdView, Row>,
    nearest: Seq<u32>,
    n: int,
) -> Seq<MoveView>
    decreases n,
{
    if n <= 0 {
        Seq::empty()
    } else {
        let front = moves_of(ids, rows, nearest, n - 1);
        let row = rows[ids[n - 1]];
        if nearest[n - 1] == row.home {
            front
        } else {
            front.push(
                MoveView {
                    id: ids[n - 1],
                    vector: row.entry.vector@,
                    from: row.home,
                    to: nearest[n - 1],
                    version: row.entry.version,
                },
            )
        }
    }
}

/// The candidates in key order, each with its nearest cluster.
pub open spec fn are_nearest<F: Fn(&Vec<u32>, &Vec<u32>, DistanceMetric) -> Result<u32, Error>>(
    score: F,
    base: VectorIndex,
    clusters: Seq<u32>,
    rows: Map<IdView, Row>,
    ids: Seq<IdView>,
    nearest: Seq<u32>,
) -> bool {
    &&& sorted::keys_sorted::<Id>(ids)
    &&& forall|id: IdView| #[trigger] ids.contains(id) <==> rows.dom().contains(id)
    &&& nearest.len() == ids.len()
    &&& forall|i: int|
        0 <= i < ids.len() ==> upkeep::is_nearest(
            score,
            base,
            rows[ids[i]].entry.vector,
            clusters,
            #[trigger] nearest[i],
        )
}

/// What the entries of a delta are: the moved vectors in their new version.
pub open spec fn moved_entries(moves: Seq<MoveView>, version: u64) -> Seq<EntryView> {
    Seq::new(
        moves.len(),
        |i: int| EntryView { id: moves[i].id, vector: moves[i].vector, version },
    )
}

/// The clusters that the moved vectors go to.
pub open spec fn moved_to(moves: Seq<MoveView>) -> Seq<usize> {
    Seq::new(moves.len(), |i: int| moves[i].to as usize)
}

/// The list of moves says what moves.
pub open spec fn lists_moves(
    list: Seq<VectorReassignment>,
    moves: Seq<MoveView>,
    version: u64,
) -> bool {
    &&& list.len() == moves.len()
    &&& forall|i: int|
        0 <= i < list.len() ==> {
            &&& (#[trigger] list[i]).id@ == moves[i].id
            &&& list[i].from_cluster_id == moves[i].from
            &&& list[i].to_cluster_id == moves[i].to
            &&& list[i].previous_version == moves[i].version
            &&& list[i].new_version == version
        }
}

/// Versions with those of the moved vectors replaced.
pub open spec fn versions_after(
    versions: Map<IdView, u64>,
    moves: Seq<MoveView>,
    version: u64,
) -> Map<IdView, u64>
    decreases moves.len(),
{
    if moves.len() == 0 {
        versions
    } else {
        versions_after(versions, moves.drop_last(), version).insert(moves.last().id, version)
    }
}

/// No vector moves to a version that is not newer than its own.
pub open spec fn versions_rise(moves: Seq<MoveView>, version: u64) -> bool {
    forall|i: int| 0 <= i < moves.len() ==> (#[trigger] moves[i]).version < version
}

/// A copy of a version map.
fn copy_versions(m: &VectorVersionMap) -> (r: VectorVersionMap)
    requires
        m.wf(),
    ensures
        r.wf(),
        r.format_version == m.format_version,
        r.column@ == m.column@,
        r.versions.map() == m.versions.map(),
{
    let mut versions: SortedMap<Id, u64> = SortedMap::new();
    let n = m.versions.len();
    let mut i: usize = 0;
    let ghost keys = m.versions.keys();
    while i < n
        invariant
            i <= n,
            n == keys.len(),
            keys == m.versions.keys(),
            m.wf(),
            versions.wf(),
            forall|id: IdView| #[trigger]
                versions.map().dom().contains(id) <==> keys.take(i as int).contains(id),
            forall|id: IdView| #[trigger]
                versions.map().dom().contains(id) ==> versions.map()[id] == m.versions.map()[id],
        decreases n - i,
    {
        let ghost before = versions.map();
        proof {
            m.versions.lemma_position(i as int);
            assert(keys.take(i + 1) =~= keys.take(i as int).push(keys[i as int]));
        }
        versions.insert(copy_id(m.versions.key_at(i)), *m.versions.value_at(i));
        assert forall|id: IdView| #[trigger] versions.map().dom().contains(id) <==> keys.take(
            i + 1,
        ).contains(id) by {
            if keys.take(i + 1).contains(id) {
                let k = keys.take(i + 1).index_of(id);
                if k < i {
                    assert(keys.take(i as int)[k] == id);
                }
            }
            if keys.take(i as int).contains(id) {
                let k = keys.take(i as int).index_of(id);
                assert(keys.take(i + 1)[k] == id);
            }
            if id == keys[i as int] {
                assert(keys.take(i + 1)[i as int] == id);
            }
        }
        i = i + 1;
    }
    assert(keys.take(n as int) =~= keys);
    assert(versions.map() =~= m.versions.map());
    VectorVersionMap { format_version: m.format_version, column: m.column.clone(), versions }
}

/// The vectors that go to other clusters.
pub open spec fn is_reassignment<
    F: Fn(&Vec<u32>, &Vec<u32>, DistanceMetric) -> Result<u32, Error>,
>(
    score: F,
    base: VectorIndex,
    appends: Seq<VectorIndex>,
    versions: VectorVersionMap,
    clusters: Seq<u32>,
    rows: Seq<Row>,
    ids: Seq<IdView>,
    nearest: Seq<u32>,
    moves: Seq<MoveView>,
) -> bool {
    let cands = candidates_of(rows, clusters.to_set());
    &&& sorted::keys_sorted::<u32>(clusters)
    &&& upkeep::all_rows(score, base, appends, Some(&versions), true, rows)
    &&& are_nearest(score, base, clusters, cands, ids, nearest)
    &&& moves == moves_of(ids, cands, nearest, ids.len() as int)
}

/// A piece of work can move these vectors.
pub open spec fn can_reassign<F: Fn(&Vec<u32>, &Vec<u32>, DistanceMetric) -> Result<u32, Error>>(
    score: F,
    base: VectorIndex,
    appends: Seq<VectorIndex>,
    versions: VectorVersionMap,
    task: VectorMaintenanceTask,
    moves: Seq<MoveView>,
) -> bool {
    exists|clusters: Seq<u32>, rows: Seq<Row>, ids: Seq<IdView>, nearest: Seq<u32>|
        clusters.to_set() == task_clusters(task) && #[trigger] is_reassignment(
            score,
            base,
            appends,
            versions,
            clusters,
            rows,
            ids,
            nearest,
            moves,
        )
}

/// The vector of a candidate does not fit the base index.
pub open spec fn has_bad_candidate(base: VectorIndex, cands: Map<IdView, Row>) -> bool {
    exists|id: IdView|
        cands.dom().contains(id) && !index::vector_ok(
            (#[trigger] cands[id]).entry.vector@,
            base.dim,
        )
}

/// A candidate is already in a version that is not older than the new one.
pub open spec fn is_overtaken(rows: Seq<Row>, clusters: Set<u32>, version: u64) -> bool {
    exists|id: IdView|
        candidates_of(rows, clusters).dom().contains(id) && (#[trigger] candidates_of(
            rows,
            clusters,
        )[id]).entry.version >= version
}

/// Why the candidates of a piece of work cannot be had.
pub open spec fn gathering_fails<F: Fn(&Vec<u32>, &Vec<u32>, DistanceMetric) -> Result<u32, Error>>(
    score: F,
    base: VectorIndex,
    appends: Seq<VectorIndex>,
    versions: VectorVersionMap,
    task: VectorMaintenanceTask,
    e: Error,
) -> bool {
    ||| e is Corrupt && versions.column@ != base.column@
    ||| e is Corrupt && !clusters_exist(task_clusters(task), base.centroids@.len() as int)
    ||| collecting_fails(score, base, appends, versions, e)
}

/// A candidate cannot be sent to the nearest of some clusters: it does not fit the base
/// index, has no score with one of the centroids, or would move to a version that is
/// not newer than its own.
pub open spec fn is_stuck<F: Fn(&Vec<u32>, &Vec<u32>, DistanceMetric) -> Result<u32, Error>>(
    score: F,
    base: VectorIndex,
    clusters: Seq<u32>,
    row: Row,
    version: u64,
    e: Error,
) -> bool {
    ||| e is InvalidQuery && !index::vector_ok(row.entry.vector@, base.dim)
    ||| upkeep::no_near_score(score, base, row.entry.vector, clusters, e)
    ||| e is Corrupt && row.entry.version >= version && exists|c: u32|
        c != row.home && #[trigger] upkeep::is_nearest(
            score,
            base,
            row.entry.vector,
            clusters,
            c,
        )
}

/// A candidate of a piece of work cannot be sent to its nearest cluster.
pub open spec fn has_stuck<F: Fn(&Vec<u32>, &Vec<u32>, DistanceMetric) -> Result<u32, Error>>(
    score: F,
    base: VectorIndex,
    appends: Seq<VectorIndex>,
    versions: VectorVersionMap,
    task: VectorMaintenanceTask,
    version: u64,
    clusters: Seq<u32>,
    rows: Seq<Row>,
    id: IdView,
    e: Error,
) -> bool {
    &&& sorted::keys_sorted::<u32>(clusters)
    &&& clusters.to_set() == task_clusters(task)
    &&& upkeep::all_rows(score, base, appends, Some(&versions), true, rows)
    &&& candidates_of(rows, task_clusters(task)).dom().contains(id)
    &&& is_stuck(
        score,
        base,
        clusters,
        candidates_of(rows, task_clusters(task))[id],
        version,
        e,
    )
}

/// Why no vectors are sent to other clusters, apart from documents that cannot be
/// indexed.
pub open spec fn reassigning_fails<
    F: Fn(&Vec<u32>, &Vec<u32>, DistanceMetric) -> Result<u32, Error>,
>(
    score: F,
    base: VectorIndex,
    appends: Seq<VectorIndex>,
    versions: VectorVersionMap,
    task: VectorMaintenanceTask,
    version: u64,
    e: Error,
) -> bool {
    ||| gathering_fails(score, base, appends, versions, task, e)
    ||| exists|clusters: Seq<u32>, rows: Seq<Row>, id: IdView| #[trigger]
        has_stuck(score, base, appends, versions, task, version, clusters, rows, id, e)
}

/// The entry that a candidate is.
fn entry_at<'a>(
    base: &'a VectorIndex,
    appends: &'a Vec<VectorIndex>,
    at: &Candidate,
    row: Ghost<Row>,
) -> (entry: &'a VectorEntry)
    requires
        locates(*base, appends@, *at, row@),
    ensures
        *entry == row@.entry,
{
    if at.segment == 0 {
        &base.postings[at.posting].vectors[at.place]
    } else {
        &appends[at.segment - 1].postings[at.posting].vectors[at.place]
    }
}

proof fn lemma_candidate_rows(rows: Seq<Row>, clusters: Set<u32>)
    ensures
        candidates_of(rows, clusters).dom().finite(),
        candidates_of(rows, clusters).dom().len() <= rows.len(),
        forall|id: IdView| #[trigger]
            candidates_of(rows, clusters).dom().contains(id) ==> candidates_of(
                rows,
                clusters,
            )[id].entry.id@ == id,
    decreases rows.len(),
{
    if rows.len() > 0 {
        lemma_candidate_rows(rows.drop_last(), clusters);
    }
}

/// A delta holds these moves.
pub open spec fn delta_holds(
    base: VectorIndex,
    versions: VectorVersionMap,
    moves: Seq<MoveView>,
    version: u64,
    docs: documents::Docs,
    d: VectorReassignmentDelta,
) -> bool {
    &&& moves.len() > 0
    &&& versions_rise(moves, version)
    &&& lists_moves(d.reassignments@, moves, version)
    &&& d.version_map.wf()
    &&& d.version_map.format_version == versions.format_version
    &&& d.version_map.column@ == versions.column@
    &&& d.version_map.versions.map() == versions_after(versions.versions.map(), moves, version)
    &&& d.index.format_version == vector::VECTOR_FORMAT_VERSION
    &&& d.index.column@ == base.column@
    &&& d.index.dim == base.dim
    &&& d.index.metric == base.metric
    &&& d.index.centroids@.len() == base.centroids@.len()
    &&& forall|c: int|
        0 <= c < base.centroids@.len() ==> (#[trigger] d.index.centroids@[c])@
            == base.centroids@[c]@
    &&& index::built_from(d.index, moved_entries(moves, version), moved_to(moves), docs)
}

/// The moves of a piece of work are these, and a delta holds them.
pub open spec fn delta_of<F: Fn(&Vec<u32>, &Vec<u32>, DistanceMetric) -> Result<u32, Error>>(
    score: F,
    base: VectorIndex,
    appends: Seq<VectorIndex>,
    versions: VectorVersionMap,
    task: VectorMaintenanceTask,
    version: u64,
    docs: documents::Docs,
    d: VectorReassignmentDelta,
) -> bool {
    exists|moves: Seq<MoveView>| #[trigger]
        can_reassign(score, base, appends, versions, task, moves) && delta_holds(
            base,
            versions,
            moves,
            version,
            docs,
            d,
        )
}

/// The documents of the moved vectors cannot be indexed.
pub open spec fn moves_unindexable<
    F: Fn(&Vec<u32>, &Vec<u32>, DistanceMetric) -> Result<u32, Error>,
>(
    score: F,
    base: VectorIndex,
    appends: Seq<VectorIndex>,
    versions: VectorVersionMap,
    task: VectorMaintenanceTask,
    version: u64,
    docs: documents::Docs,
) -> bool {
    exists|moves: Seq<MoveView>| #[trigger]
        can_reassign(score, base, appends, versions, task, moves) && !index::entries_indexable(
            moved_entries(moves, version),
            docs,
        )
}

impl VectorIndex {
    /// Sends every live vector around a cluster to the nearest of the clusters
    /// there. There is no delta where none moves.
    pub fn build_reassignment_delta<
        F: Copy + Fn(&Vec<u32>, &Vec<u32>, DistanceMetric) -> Result<u32, Error>,
    >(
        &self,
        appends: &Vec<VectorIndex>,
        version_map: &VectorVersionMap,
        task: &VectorMaintenanceTask,
        new_version: u64,
        docs: &SortedMap<Id, Document>,
        score: F,
    ) -> (r: Result<Option<VectorReassignmentDelta>, Error>)
        requires
            vector::can_score(score),
            version_map.wf(),
            documents::docs_wf(*docs),
            self.centroids@.len() <= u32::MAX,
            appends@.len() < usize::MAX,
            plan::segment_rows(*self, appends@) <= u32::MAX,
        ensures
            match r {
                Ok(None) => can_reassign(
                    score,
                    *self,
                    appends@,
                    *version_map,
                    *task,
                    Seq::<MoveView>::empty(),
                ),
                Ok(Some(d)) => delta_of(
                    score,
                    *self,
                    appends@,
                    *version_map,
                    *task,
                    new_version,
                    documents::docs_view(*docs),
                    d,
                ),
                Err(e) => reassigning_fails(
                    score,
                    *self,
                    appends@,
                    *version_map,
                    *task,
                    new_version,
                    e,
                ) || (e is InvalidSchema && moves_unindexable(
                    score,
                    *self,
                    appends@,
                    *version_map,
                    *task,
                    new_version,
                    documents::docs_view(*docs),
                )),
            },
    {
        match version_map.check_column(self.column.as_str()) {
            Ok(_) => {},
            Err(e) => {
                return Err(e);
            },
        }
        let clusters = match task_cluster_neighborhood(self, task) {
            Ok(ids) => ids,
            Err(e) => {
                return Err(e);
            },
        };
        let (found, Ghost(rows)) = match all_candidates(self, appends, &clusters, version_map, score) {
            Ok(found) => found,
            Err(e) => {
                return Err(e);
            },
        };
        let ghost cands = candidates_of(rows, clusters@.to_set());
        let ghost ids = found.keys();
        let n = found.len();
        proof {
            lemma_candidate_rows(rows, clusters@.to_set());
            plan::lemma_rows_len(score, *self, appends@, Some(version_map), true, rows);
            lemma_keys_bound(found, cands);
            assert(clusters@.to_set().contains(task.cluster_id));
            assert forall|i: int| 0 <= i < clusters@.len() implies (#[trigger] clusters@[i])
                < self.centroids@.len() by {
                assert(clusters@.to_set().contains(clusters@[i]));
            }
        }
        let mut entries: Vec<VectorEntry> = Vec::new();
        let mut assignments: Vec<usize> = Vec::new();
        let mut reassignments: Vec<VectorReassignment> = Vec::new();
        let mut versions = copy_versions(version_map);
        let ghost mut nearest: Seq<u32> = Seq::empty();
        let ghost mut moves: Seq<MoveView> = Seq::empty();
        let mut i: usize = 0;
        assert(index::views_of(entries@) =~= moved_entries(moves, new_version));
        assert(assignments@ =~= moved_to(moves));
        while i < n
            invariant
                i <= n,
                n == ids.len(),
                n <= rows.len(),
                rows.len() <= u32::MAX,
                ids == found.keys(),
                cands == candidates_of(rows, clusters@.to_set()),
                clusters@.to_set() == task_clusters(*task),
                sorted::keys_sorted::<u32>(clusters@),
                clusters@.len() > 0,
                forall|k: int|
                    0 <= k < clusters@.len() ==> (#[trigger] clusters@[k]) < self.centroids@.len(),
                vector::can_score(score),
                upkeep::all_rows(score, *self, appends@, Some(version_map), true, rows),
                found_are(*self, appends@, found, cands),
                forall|id: IdView| #[trigger] cands.dom().contains(id) ==> cands[id].entry.id@ == id,
                nearest.len() == i,
                forall|k: int|
                    0 <= k < i ==> upkeep::is_nearest(
                        score,
                        *self,
                        cands[ids[k]].entry.vector,
                        clusters@,
                        #[trigger] nearest[k],
                    ),
                moves == moves_of(ids, cands, nearest, i as int),
                moves.len() <= i,
                versions_rise(moves, new_version),
                lists_moves(reassignments@, moves, new_version),
                index::views_of(entries@) == moved_entries(moves, new_version),
                entries@.len() == moves.len(),
                assignments@ == moved_to(moves),
                forall|k: int|
                    0 <= k < moves.len() ==> (#[trigger] moves[k]).to < self.centroids@.len(),
                versions.wf(),
                versions.format_version == version_map.format_version,
                versions.column@ == version_map.column@,
                versions.versions.map() == versions_after(
                    version_map.versions.map(),
                    moves,
                    new_version,
                ),
            decreases n - i,
        {
            let ghost id = ids[i as int];
            proof {
                found.lemma_position(i as int);
                assert(found.map().dom().contains(id));
            }
            let at = found.value_at(i);
            let entry = entry_at(self, appends, at, Ghost(cands[id]));
            let to = match nearest_cluster(
                self,
                &entry.vector,
                &clusters,
                "reassignment vector",
                "empty vector reassignment neighborhood",
                score,
            ) {
                Ok(c) => c,
                Err(e) => {
                    assert(has_stuck(
                        score,
                        *self,
                        appends@,
                        *version_map,
                        *task,
                        new_version,
                        clusters@,
                        rows,
                        id,
                        e,
                    ));
                    return Err(e);
                },
            };
            let ghost was = nearest;
            proof {
                nearest = nearest.push(to);
                lemma_moves_prefix(ids, cands, was, nearest, i as int);
            }
            if to != at.cluster {
                if new_version <= entry.version {
                    let late = corrupt(
                        "vector reassignment version must be newer than the live copy",
                    );
                    assert(upkeep::is_nearest(
                        score,
                        *self,
                        cands[id].entry.vector,
                        clusters@,
                        to,
                    ));
                    assert(has_stuck(
                        score,
                        *self,
                        appends@,
                        *version_map,
                        *task,
                        new_version,
                        clusters@,
                        rows,
                        id,
                        late,
                    ));
                    return Err(late);
                }
                let ghost before = moves;
                let ghost entries_before = entries@;
                let ghost m = MoveView {
                    id,
                    vector: entry.vector@,
                    from: at.cluster,
                    to,
                    version: entry.version,
                };
                reassignments.push(
                    VectorReassignment {
                        id: copy_id(&entry.id),
                        from_cluster_id: at.cluster,
                        to_cluster_id: to,
                        previous_version: entry.version,
                        new_version,
                    },
                );
                entries.push(
                    VectorEntry {
                        id: copy_id(&entry.id),
                        vector: copy_vector(&entry.vector),
                        local_id: 0,
                        version: new_version,
                    },
                );
                assignments.push(to as usize);
                versions.versions.insert(copy_id(&entry.id), new_version);
                proof {
                    moves = moves.push(m);
                    assert(moves.drop_last() =~= before);
                    assert(index::views_of(entries@) =~= moved_entries(moves, new_version)) by {
                        assert forall|k: int| 0 <= k < moves.len() implies index::views_of(
                            entries@,
                        )[k] == moved_entries(moves, new_version)[k] by {
                            if k < before.len() {
                                assert(index::views_of(entries_before)[k] == moved_entries(
                                    before,
                                    new_version,
                                )[k]);
                                assert(entries@[k] == entries_before[k]);
                            }
                        }
                    }
                    assert(assignments@ =~= moved_to(moves));
                    let k = clusters@.index_of(to);
                    assert(clusters@[k] == to);
                }
            }
            i = i + 1;
        }
        proof {
            assert(sorted::keys_sorted::<Id>(ids));
            assert forall|id: IdView| #[trigger] ids.contains(id) <==> cands.dom().contains(id) by {
                assert(found.map().dom().contains(id) == ids.contains(id));
            }
            assert(is_reassignment(
                score,
                *self,
                appends@,
                *version_map,
                clusters@,
                rows,
                ids,
                nearest,
                moves,
            ));
            assert(can_reassign(score, *self, appends@, *version_map, *task, moves));
        }
        if entries.len() == 0 {
            assert(moves =~= Seq::<MoveView>::empty());
            return Ok(None);
        }
        let ghost views = index::views_of(entries@);
        proof {
            assert forall|k: int| 0 <= k < assignments@.len() implies (#[trigger] assignments@[k])
                < self.centroids@.len() by {
                assert(moves[k].to < self.centroids@.len());
            }
        }
        let centroids = copy_vectors(&self.centroids);
        match make_index(
            self.column.clone(),
            self.metric,
            self.dim,
            centroids,
            entries,
            &assignments,
            docs,
        ) {
            Ok(index) => {
                let d = VectorReassignmentDelta { index, version_map: versions, reassignments };
                assert(delta_holds(
                    *self,
                    *version_map,
                    moves,
                    new_version,
                    documents::docs_view(*docs),
                    d,
                ));
                Ok(Some(d))
            },
            Err(e) => Err(e),
        }
    }
}

proof fn lemma_keys_bound(found: SortedMap<Id, Candidate>, cands: Map<IdView, Row>)
    requires
        found.wf(),
        forall|id: IdView| #[trigger]
            found.map().dom().contains(id) <==> cands.dom().contains(id),
        cands.dom().finite(),
    ensures
        found.keys().len() <= cands.dom().len(),
{
    let keys = found.keys();
    assert forall|i: int, j: int| 0 <= i < j < keys.len() implies keys[i] != keys[j] by {
        found.lemma_position(i);
        found.lemma_position(j);
    }
    assert(keys.no_duplicates());
    keys.unique_seq_to_set();
    assert(keys.to_set() =~= cands.dom()) by {
        assert forall|id: IdView| keys.to_set().contains(id) == cands.dom().contains(id) by {
            assert(found.map().dom().contains(id) == keys.contains(id));
        }
    }
}

proof fn lemma_moves_prefix(
    ids: Seq<IdView>,
    rows: Map<IdView, Row>,
    a: Seq<u32>,
    b: Seq<u32>,
    n: int,
)
    requires
        0 <= n <= a.len(),
        a.len() <= b.len(),
        forall|i: int| 0 <= i < a.len() ==> #[trigger] a[i] == b[i],
    ensures
        moves_of(ids, rows, a, n) == moves_of(ids, rows, b, n),
    decreases n,
{
    if n > 0 {
        lemma_moves_prefix(ids, rows, a, b, n - 1);
        assert(a[n - 1] == b[n - 1]);
    }
}

/// The vectors of some candidates in a new version.
pub open spec fn renewed(
    ids: Seq<IdView>,
    rows: Map<IdView, Row>,
    version: u64,
) -> Seq<EntryView> {
    Seq::new(
        ids.len(),
        |i: int| EntryView { id: ids[i], vector: rows[ids[i]].entry.vector@, version },
    )
}

/// Versions with those of some keys replaced.
pub open spec fn versions_set(
    versions: Map<IdView, u64>,
    ids: Seq<IdView>,
    version: u64,
) -> Map<IdView, u64>
    decreases ids.len(),
{
    if ids.len() == 0 {
        versions
    } else {
        versions_set(versions, ids.drop_last(), version).insert(ids.last(), version)
    }
}

/// How many clusters are formed in place of those that a piece of work is about.
pub open spec fn target_clusters(action: VectorMaintenanceAction) -> int {
    match action {
        VectorMaintenanceAction::Split => 2,
        VectorMaintenanceAction::Merge => 1,
    }
}

/// The candidates of a piece of work, in key order.
pub open spec fn are_candidates<F: Fn(&Vec<u32>, &Vec<u32>, DistanceMetric) -> Result<u32, Error>>(
    score: F,
    base: VectorIndex,
    appends: Seq<VectorIndex>,
    versions: VectorVersionMap,
    task: VectorMaintenanceTask,
    rows: Seq<Row>,
    ids: Seq<IdView>,
) -> bool {
    let cands = candidates_of(rows, task_clusters(task));
    &&& upkeep::all_rows(score, base, appends, Some(&versions), true, rows)
    &&& sorted::keys_sorted::<Id>(ids)
    &&& forall|id: IdView| #[trigger] ids.contains(id) <==> cands.dom().contains(id)
}

/// A piece of work has no candidates.
pub open spec fn no_candidates<F: Fn(&Vec<u32>, &Vec<u32>, DistanceMetric) -> Result<u32, Error>>(
    score: F,
    base: VectorIndex,
    appends: Seq<VectorIndex>,
    versions: VectorVersionMap,
    task: VectorMaintenanceTask,
) -> bool {
    exists|rows: Seq<Row>| #[trigger]
        are_candidates(score, base, appends, versions, task, rows, Seq::<IdView>::empty())
}

/// An index is formed anew from some entries.
pub open spec fn is_formed<
    F: Fn(&Vec<u32>, &Vec<u32>, DistanceMetric) -> Result<u32, Error>,
    G: Fn(&Vec<VectorEntry>, &Vec<usize>, &Vec<Vec<u32>>, DistanceMetric) -> Vec<Vec<u32>>,
>(
    score: F,
    recompute: G,
    views: Seq<EntryView>,
    clusters: int,
    docs: documents::Docs,
    d: VectorIndex,
) -> bool {
    exists|
        entries: Seq<VectorEntry>,
        sorted: Vec<VectorEntry>,
        first: Vec<Vec<u32>>,
        assignments: Seq<usize>,
    |
        index::views_of(entries) == views && #[trigger] index::is_built(
            score,
            recompute,
            entries,
            clusters,
            docs,
            d,
            sorted,
            first,
            assignments,
        )
}

/// A delta holds the candidates of a piece of work in a new version.
pub open spec fn rebuild_holds<
    F: Fn(&Vec<u32>, &Vec<u32>, DistanceMetric) -> Result<u32, Error>,
    G: Fn(&Vec<VectorEntry>, &Vec<usize>, &Vec<Vec<u32>>, DistanceMetric) -> Vec<Vec<u32>>,
>(
    score: F,
    recompute: G,
    base: VectorIndex,
    versions: VectorVersionMap,
    task: VectorMaintenanceTask,
    version: u64,
    docs: documents::Docs,
    rows: Seq<Row>,
    ids: Seq<IdView>,
    d: VectorLocalRebuildDelta,
) -> bool {
    let cands = candidates_of(rows, task_clusters(task));
    &&& ids.len() > 0
    &&& forall|i: int| 0 <= i < ids.len() ==> cands[#[trigger] ids[i]].entry.version < version
    &&& d.rebuilt_ids@.len() == ids.len()
    &&& forall|i: int| 0 <= i < ids.len() ==> (#[trigger] d.rebuilt_ids@[i])@ == ids[i]
    &&& sorted::keys_sorted::<u32>(d.rebuilt_cluster_ids@)
    &&& d.rebuilt_cluster_ids@.to_set() == task_clusters(task)
    &&& d.version_map.wf()
    &&& d.version_map.format_version == versions.format_version
    &&& d.version_map.column@ == versions.column@
    &&& d.version_map.versions.map() == versions_set(versions.versions.map(), ids, version)
    &&& d.index.format_version == vector::VECTOR_FORMAT_VERSION
    &&& d.index.column@ == base.column@
    &&& d.index.dim == base.dim
    &&& d.index.metric == base.metric
    &&& is_formed(
        score,
        recompute,
        renewed(ids, cands, version),
        target_clusters(task.action),
        docs,
        d.index,
    )
}

/// A delta holds the candidates of a piece of work.
pub open spec fn rebuild_of<
    F: Fn(&Vec<u32>, &Vec<u32>, DistanceMetric) -> Result<u32, Error>,
    G: Fn(&Vec<VectorEntry>, &Vec<usize>, &Vec<Vec<u32>>, DistanceMetric) -> Vec<Vec<u32>>,
>(
    score: F,
    recompute: G,
    base: VectorIndex,
    appends: Seq<VectorIndex>,
    versions: VectorVersionMap,
    task: VectorMaintenanceTask,
    version: u64,
    docs: documents::Docs,
    d: VectorLocalRebuildDelta,
) -> bool {
    exists|rows: Seq<Row>, ids: Seq<IdView>| #[trigger]
        are_candidates(score, base, appends, versions, task, rows, ids) && rebuild_holds(
            score,
            recompute,
            base,
            versions,
            task,
            version,
            docs,
            rows,
            ids,
            d,
        )
}

/// Clusters cannot be formed anew from some entries, for the reason `e`.
pub open spec fn cannot_form<
    F: Fn(&Vec<u32>, &Vec<u32>, DistanceMetric) -> Result<u32, Error>,
    G: Fn(&Vec<VectorEntry>, &Vec<usize>, &Vec<Vec<u32>>, DistanceMetric) -> Vec<Vec<u32>>,
>(
    score: F,
    recompute: G,
    metric: DistanceMetric,
    views: Seq<EntryView>,
    clusters: int,
    e: Error,
) -> bool {
    exists|entries: Seq<VectorEntry>|
        index::views_of(entries) == views && #[trigger] index::forming_fails(
            score,
            recompute,
            entries,
            clusters,
            metric,
            e,
        )
}

/// The candidates of a piece of work cannot be put into clusters anew: one is already
/// in a version that is not older, one does not fit the base index, the clusters cannot
/// be formed, or the documents cannot be indexed.
pub open spec fn has_unbuildable<
    F: Fn(&Vec<u32>, &Vec<u32>, DistanceMetric) -> Result<u32, Error>,
    G: Fn(&Vec<VectorEntry>, &Vec<usize>, &Vec<Vec<u32>>, DistanceMetric) -> Vec<Vec<u32>>,
>(
    score: F,
    recompute: G,
    base: VectorIndex,
    appends: Seq<VectorIndex>,
    versions: VectorVersionMap,
    task: VectorMaintenanceTask,
    version: u64,
    docs: documents::Docs,
    rows: Seq<Row>,
    ids: Seq<IdView>,
    e: Error,
) -> bool {
    let cands = candidates_of(rows, task_clusters(task));
    let views = renewed(ids, cands, version);
    &&& are_candidates(score, base, appends, versions, task, rows, ids)
    &&& {
        ||| e is Corrupt && is_overtaken(rows, task_clusters(task), version)
        ||| e is InvalidQuery && has_bad_candidate(base, cands)
        ||| cannot_form(score, recompute, base.metric, views, target_clusters(task.action), e)
        ||| e is InvalidSchema && !index::entries_indexable(views, docs)
    }
}

/// Why clusters are not formed anew.
pub open spec fn rebuilding_fails<
    F: Fn(&Vec<u32>, &Vec<u32>, DistanceMetric) -> Result<u32, Error>,
    G: Fn(&Vec<VectorEntry>, &Vec<usize>, &Vec<Vec<u32>>, DistanceMetric) -> Vec<Vec<u32>>,
>(
    score: F,
    recompute: G,
    base: VectorIndex,
    appends: Seq<VectorIndex>,
    versions: VectorVersionMap,
    task: VectorMaintenanceTask,
    version: u64,
    docs: documents::Docs,
    e: Error,
) -> bool {
    ||| gathering_fails(score, base, appends, versions, task, e)
    ||| exists|rows: Seq<Row>, ids: Seq<IdView>| #[trigger]
        has_unbuildable(
            score,
            recompute,
            base,
            appends,
            versions,
            task,
            version,
            docs,
            rows,
            ids,
            e,
        )
}

impl VectorIndex {
    /// Forms the clusters around a split or merged one anew, from the live vectors
    /// there. There is no delta where there are none.
    pub fn build_local_rebuild_delta<
        F: Copy + Fn(&Vec<u32>, &Vec<u32>, DistanceMetric) -> Result<u32, Error>,
        G: Copy + Fn(
            &Vec<VectorEntry>,
            &Vec<usize>,
            &Vec<Vec<u32>>,
            DistanceMetric,
        ) -> Vec<Vec<u32>>,
    >(
        &self,
        appends: &Vec<VectorIndex>,
        version_map: &VectorVersionMap,
        task: &VectorMaintenanceTask,
        new_version: u64,
        docs: &SortedMap<Id, Document>,
        score: F,
        recompute: G,
    ) -> (r: Result<Option<VectorLocalRebuildDelta>, Error>)
        requires
            vector::can_score(score),
            index::can_recompute(recompute),
            version_map.wf(),
            documents::docs_wf(*docs),
            self.centroids@.len() <= u32::MAX,
            appends@.len() < usize::MAX,
            plan::segment_rows(*self, appends@) <= u32::MAX,
        ensures
            match r {
                Ok(None) => no_candidates(score, *self, appends@, *version_map, *task),
                Ok(Some(d)) => rebuild_of(
                    score,
                    recompute,
                    *self,
                    appends@,
                    *version_map,
                    *task,
                    new_version,
                    documents::docs_view(*docs),
                    d,
                ),
                Err(e) => rebuilding_fails(
                    score,
                    recompute,
                    *self,
                    appends@,
                    *version_map,
                    *task,
                    new_version,
                    documents::docs_view(*docs),
                    e,
                ),
            },
    {
        match version_map.check_column(self.column.as_str()) {
            Ok(_) => {},
            Err(e) => {
                return Err(e);
            },
        }
        let clusters = match task_cluster_neighborhood(self, task) {
            Ok(ids) => ids,
            Err(e) => {
                return Err(e);
            },
        };
        let (found, Ghost(rows)) = match all_candidates(self, appends, &clusters, version_map, score) {
            Ok(found) => found,
            Err(e) => {
                return Err(e);
            },
        };
        let ghost cands = candidates_of(rows, task_clusters(*task));
        let ghost ids = found.keys();
        let n = found.len();
        proof {
            lemma_candidate_rows(rows, clusters@.to_set());
            plan::lemma_rows_len(score, *self, appends@, Some(version_map), true, rows);
            lemma_keys_bound(found, cands);
            assert forall|id: IdView| #[trigger] ids.contains(id) <==> cands.dom().contains(id) by {
                assert(found.map().dom().contains(id) == ids.contains(id));
            }
            assert(are_candidates(score, *self, appends@, *version_map, *task, rows, ids));
        }
        let mut entries: Vec<VectorEntry> = Vec::new();
        let mut rebuilt_ids: Vec<Id> = Vec::new();
        let mut versions = copy_versions(version_map);
        let mut i: usize = 0;
        assert(ids.take(0) =~= Seq::empty());
        while i < n
            invariant
                i <= n,
                n == ids.len(),
                ids == found.keys(),
                cands == candidates_of(rows, task_clusters(*task)),
                upkeep::all_rows(score, *self, appends@, Some(version_map), true, rows),
                found_are(*self, appends@, found, cands),
                forall|id: IdView| #[trigger] cands.dom().contains(id) ==> cands[id].entry.id@ == id,
                entries@.len() == i,
                rebuilt_ids@.len() == i,
                forall|k: int|
                    0 <= k < i ==> vector::entry_view(#[trigger] entries@[k]) == (EntryView {
                        id: ids[k],
                        vector: cands[ids[k]].entry.vector@,
                        version: new_version,
                    }),
                forall|k: int| 0 <= k < i ==> cands[#[trigger] ids[k]].entry.version < new_version,
                forall|k: int| 0 <= k < i ==> (#[trigger] rebuilt_ids@[k])@ == ids[k],
                are_candidates(score, *self, appends@, *version_map, *task, rows, ids),
                versions.wf(),
                versions.format_version == version_map.format_version,
                versions.column@ == version_map.column@,
                versions.versions.map() == versions_set(
                    version_map.versions.map(),
                    ids.take(i as int),
                    new_version,
                ),
            decreases n - i,
        {
            let ghost id = ids[i as int];
            proof {
                found.lemma_position(i as int);
                assert(found.map().dom().contains(id));
                assert(ids.take(i + 1).drop_last() =~= ids.take(i as int));
                assert(ids.take(i + 1).last() == id);
            }
            let at = found.value_at(i);
            let entry = entry_at(self, appends, at, Ghost(cands[id]));
            if new_version <= entry.version {
                let late = corrupt(
                    "vector local rebuild version must be newer than the live copy",
                );
                assert(cands[id].entry.version >= new_version);
                assert(is_overtaken(rows, task_clusters(*task), new_version));
                assert(has_unbuildable(
                    score,
                    recompute,
                    *self,
                    appends@,
                    *version_map,
                    *task,
                    new_version,
                    documents::docs_view(*docs),
                    rows,
                    ids,
                    late,
                ));
                return Err(late);
            }
            versions.versions.insert(copy_id(&entry.id), new_version);
            rebuilt_ids.push(copy_id(&entry.id));
            entries.push(
                VectorEntry {
                    id: copy_id(&entry.id),
                    vector: copy_vector(&entry.vector),
                    local_id: 0,
                    version: new_version,
                },
            );
            i = i + 1;
        }
        assert(ids.take(n as int) =~= ids);
        let target: usize = match task.action {
            VectorMaintenanceAction::Split => 2,
            VectorMaintenanceAction::Merge => 1,
        };
        let ghost made = entries@;
        let ghost all = documents::docs_view(*docs);
        assert(index::views_of(made) =~= renewed(ids, cands, new_version));
        let built = VectorIndex::build_with_cluster_count(
            self.column.clone(),
            self.metric,
            self.dim,
            entries,
            docs,
            target,
            score,
            recompute,
        );
        match built {
            Ok(Some(index)) => {
                let d = VectorLocalRebuildDelta {
                    index,
                    version_map: versions,
                    rebuilt_ids,
                    rebuilt_cluster_ids: clusters,
                };
                proof {
                    let (sorted, first, assignments) = choose|
                        sorted: Vec<VectorEntry>,
                        first: Vec<Vec<u32>>,
                        assignments: Seq<usize>,
                    | #[trigger]
                        index::is_built(
                            score,
                            recompute,
                            made,
                            target as int,
                            all,
                            d.index,
                            sorted,
                            first,
                            assignments,
                        );
                    assert(index::is_built(
                        score,
                        recompute,
                        made,
                        target_clusters(task.action),
                        all,
                        d.index,
                        sorted,
                        first,
                        assignments,
                    ));
                    assert(rebuild_holds(
                        score,
                        recompute,
                        *self,
                        *version_map,
                        *task,
                        new_version,
                        all,
                        rows,
                        ids,
                        d,
                    ));
                }
                Ok(Some(d))
            },
            Ok(None) => {
                assert(ids =~= Seq::<IdView>::empty());
                Ok(None)
            },
            Err(e) => {
                proof {
                    if !index::entries_ok(made, self.dim) {
                        let k = choose|k: int|
                            0 <= k < made.len() && !index::vector_ok(
                                (#[trigger] made[k]).vector@,
                                self.dim,
                            );
                        assert(vector::entry_view(made[k]).vector == cands[ids[k]].entry.vector@);
                        assert(ids.contains(ids[k]));
                        assert(has_bad_candidate(*self, cands));
                    } else if index::forming_fails(
                        score,
                        recompute,
                        made,
                        target_clusters(task.action),
                        self.metric,
                        e,
                    ) {
                        assert(cannot_form(
                            score,
                            recompute,
                            self.metric,
                            renewed(ids, cands, new_version),
                            target_clusters(task.action),
                            e,
                        ));
                    }
                    assert(has_unbuildable(
                        score,
                        recompute,
                        *self,
                        appends@,
                        *version_map,
                        *task,
                        new_version,
                        all,
                        rows,
                        ids,
                        e,
                    ));
                }
                Err(e)
            },
        }
    }
}

/// The candidates are the live rows of the clusters in question: one for every key that has
/// such a row, and always the first.
pub proof fn law_candidates_are_the_live_rows(rows: Seq<Row>, clusters: Set<u32>, id: IdView)
    ensures
        candidates_of(rows, clusters).dom().contains(id) <==> exists|i: int|
            0 <= i < rows.len() && (#[trigger] rows[i]).live && clusters.contains(rows[i].home)
                && rows[i].entry.id@ == id,
        candidates_of(rows, clusters).dom().contains(id) ==> exists|i: int|
            0 <= i < rows.len() && candidates_of(rows, clusters)[id] == #[trigger] rows[i]
                && rows[i].live && clusters.contains(rows[i].home) && rows[i].entry.id@ == id
                && forall|j: int|
                0 <= j < i && (#[trigger] rows[j]).entry.id@ == id ==> !(rows[j].live
                    && clusters.contains(rows[j].home)),
    decreases rows.len(),
{
    if rows.len() > 0 {
        let front = rows.drop_last();
        let n = rows.len() - 1;
        law_candidates_are_the_live_rows(front, clusters, id);
        if candidates_of(front, clusters).dom().contains(id) {
            let i = choose|i: int|
                0 <= i < front.len() && candidates_of(front, clusters)[id] == #[trigger] front[i]
                    && front[i].live && clusters.contains(front[i].home) && front[i].entry.id@ == id
                    && forall|j: int|
                    0 <= j < i && (#[trigger] front[j]).entry.id@ == id ==> !(front[j].live
                        && clusters.contains(front[j].home));
            assert(rows[i] == front[i]);
            assert forall|j: int| 0 <= j < i && (#[trigger] rows[j]).entry.id@ == id implies !(
            rows[j].live && clusters.contains(rows[j].home)) by {
                assert(front[j] == rows[j]);
            }
            assert(candidates_of(rows, clusters)[id] == rows[i]);
        } else {
            assert forall|j: int| 0 <= j < n && (#[trigger] rows[j]).entry.id@ == id implies !(
            rows[j].live && clusters.contains(rows[j].home)) by {
                assert(front[j] == rows[j]);
            }
            if candidates_of(rows, clusters).dom().contains(id) {
                assert(candidates_of(rows, clusters)[id] == rows[n]);
            }
        }
    }
}

/// A vector moves exactly if another cluster is nearer, and then from its cluster to that
/// one; those that are at home already stay.
pub proof fn law_vectors_move_to_nearer_clusters(
    ids: Seq<IdView>,
    rows: Map<IdView, Row>,
    nearest: Seq<u32>,
    n: int,
    i: int,
)
    requires
        0 <= i < n <= ids.len(),
        nearest.len() == ids.len(),
    ensures
        nearest[i] != rows[ids[i]].home ==> exists|k: int|
            0 <= k < moves_of(ids, rows, nearest, n).len() && {
                let m = #[trigger] moves_of(ids, rows, nearest, n)[k];
                &&& m.id == ids[i]
                &&& m.from == rows[ids[i]].home
                &&& m.to == nearest[i]
                &&& m.vector == rows[ids[i]].entry.vector@
            },
        forall|k: int|
            0 <= k < moves_of(ids, rows, nearest, n).len() ==> (#[trigger] moves_of(
                ids,
                rows,
                nearest,
                n,
            )[k]).from != moves_of(ids, rows, nearest, n)[k].to,
    decreases n,
{
    let all = moves_of(ids, rows, nearest, n);
    let front = moves_of(ids, rows, nearest, n - 1);
    if n > 1 {
        law_vectors_move_to_nearer_clusters(
            ids,
            rows,
            nearest,
            n - 1,
            if i < n - 1 {
                i
            } else {
                0
            },
        );
    } else {
        assert(front =~= Seq::empty());
    }
    if nearest[i] != rows[ids[i]].home {
        if i < n - 1 {
            let k = choose|k: int|
                0 <= k < front.len() && {
                    let m = #[trigger] front[k];
                    &&& m.id == ids[i]
                    &&& m.from == rows[ids[i]].home
                    &&& m.to == nearest[i]
                    &&& m.vector == rows[ids[i]].entry.vector@
                };
            assert(all[k] == front[k]);
        } else {
            assert(all[front.len() as int].id == ids[i]);
        }
    }
    assert forall|k: int| 0 <= k < all.len() implies (#[trigger] all[k]).from != all[k].to by {
        if k < front.len() {
            assert(all[k] == front[k]);
        }
    }
}

/// Moving vectors gives these the new version and leaves the versions of all others.
pub proof fn law_moved_vectors_get_the_new_version(
    versions: Map<IdView, u64>,
    moves: Seq<MoveView>,
    version: u64,
    id: IdView,
)
    ensures
        ({
            let after = versions_after(versions, moves, version);
            let moved = exists|i: int| 0 <= i < moves.len() && (#[trigger] moves[i]).id == id;
            &&& moved ==> after.dom().contains(id) && after[id] == version
            &&& !moved ==> (after.dom().contains(id) <==> versions.dom().contains(id))
            &&& !moved && versions.dom().contains(id) ==> after[id] == versions[id]
        }),
    decreases moves.len(),
{
    if moves.len() > 0 {
        let front = moves.drop_last();
        law_moved_vectors_get_the_new_version(versions, front, version, id);
        if exists|i: int| 0 <= i < moves.len() && (#[trigger] moves[i]).id == id {
            let i = choose|i: int| 0 <= i < moves.len() && (#[trigger] moves[i]).id == id;
            if i < front.len() {
                assert(front[i].id == id);
            }
        } else {
            assert forall|i: int| 0 <= i < front.len() implies (#[trigger] front[i]).id != id by {
                assert(moves[i] == front[i]);
            }
            assert(moves[moves.len() - 1].id != id);
        }
    }
}

/// Rebuilding clusters gives the vectors in them the new version and leaves the versions of
/// all others; the vectors themselves stay as they are.
pub proof fn law_rebuilt_vectors_get_the_new_version(
    versions: Map<IdView, u64>,
    ids: Seq<IdView>,
    rows: Map<IdView, Row>,
    version: u64,
    id: IdView,
)
    ensures
        ({
            let after = versions_set(versions, ids, version);
            &&& ids.contains(id) ==> after.dom().contains(id) && after[id] == version
            &&& !ids.contains(id) ==> (after.dom().contains(id) <==> versions.dom().contains(id))
            &&& !ids.contains(id) && versions.dom().contains(id) ==> after[id] == versions[id]
        }),
        renewed(ids, rows, version).len() == ids.len(),
        forall|i: int|
            0 <= i < ids.len() ==> {
                let e = #[trigger] renewed(ids, rows, version)[i];
                &&& e.id == ids[i]
                &&& e.vector == rows[ids[i]].entry.vector@
                &&& e.version == version
            },
    decreases ids.len(),
{
    if ids.len() > 0 {
        let front = ids.drop_last();
        law_rebuilt_vectors_get_the_new_version(versions, front, rows, version, id);
        if ids.contains(id) {
            let i = ids.index_of(id);
            if i < front.len() {
                assert(front[i] == id);
            }
        }
        if front.contains(id) {
            let i = front.index_of(id);
            assert(ids[i] == id);
        }
        assert(ids[ids.len() - 1] == ids.last());
    }
}

/// Out of one cluster a split forms two, and out of two a merge forms one; the work is about
/// the cluster, the one that it is merged with, and their neighbors.
pub proof fn law_work_is_about_the_neighborhood(task: VectorMaintenanceTask)
    ensures
        target_clusters(VectorMaintenanceAction::Split) == 2,
        target_clusters(VectorMaintenanceAction::Merge) == 1,
        task_clusters(task).contains(task.cluster_id),
        task.partner_cluster_id matches Some(c) ==> task_clusters(task).contains(c),
        forall|i: int|
            0 <= i < task.neighbor_cluster_ids@.len() ==> task_clusters(task).contains(
                #[trigger] task.neighbor_cluster_ids@[i],
            ),
{
}

} // verus!
