//! Which clusters of a vector index to split and which to merge.

use vstd::prelude::*;

use crate::error::Error;
use crate::manifest::{VectorMaintenanceAction, VectorMaintenancePlan, VectorMaintenanceTask, VectorMaintenanceThresholds};
use crate::schema::DistanceMetric;
use crate::vector;
use crate::vector::upkeep;
use crate::vector::upkeep::{accumulate_maintenance_stats, nearest_cluster_ids, no_stats, Row, VectorPostingMaintenanceStats};
use crate::vector::{VectorIndex, VectorVersionMap};

verus! {

/// What a piece of work stands for.
pub struct TaskView {
    pub action: VectorMaintenanceAction,
    pub cluster_id: u32,
    pub partner_cluster_id: Option<u32>,
    pub neighbor_cluster_ids: Seq<u32>,
    pub live_rows: u64,
    pub stale_rows: u64,
    pub append_rows: u64,
    pub total_rows: u64,
}

pub open spec fn task_view(t: VectorMaintenanceTask) -> TaskView {
    TaskView {
        action: t.action,
        cluster_id: t.cluster_id,
        partner_cluster_id: t.partner_cluster_id,
        neighbor_cluster_ids: t.neighbor_cluster_ids@,
        live_rows: t.live_rows,
        stale_rows: t.stale_rows,
        append_rows: t.append_rows,
        total_rows: t.total_rows,
    }
}

pub open spec fn tasks_view(ts: Seq<VectorMaintenanceTask>) -> Seq<TaskView> {
    Seq::new(ts.len(), |i: int| task_view(ts[i]))
}

/// The neighbors of each cluster; `None` where their scores cannot be had.
pub open spec fn neighbors_view(ns: Seq<Option<Vec<u32>>>) -> Seq<Option<Seq<u32>>> {
    Seq::new(
        ns.len(),
        |i: int|
            match ns[i] {
                Some(v) => Some(v@),
                None => None,
            },
    )
}

/// The work on one cluster.
pub open spec fn task_for(
    stat: VectorPostingMaintenanceStats,
    action: VectorMaintenanceAction,
    partner: Option<u32>,
    neighbors: Seq<u32>,
) -> TaskView {
    TaskView {
        action,
        cluster_id: stat.cluster_id,
        partner_cluster_id: partner,
        neighbor_cluster_ids: neighbors,
        live_rows: stat.live_rows,
        stale_rows: stat.stale_rows,
        append_rows: stat.append_rows,
        total_rows: stat.total_rows,
    }
}

/// A cluster has outgrown its limit.
pub open spec fn is_split(
    stats: Seq<VectorPostingMaintenanceStats>,
    t: VectorMaintenanceThresholds,
    cluster: int,
) -> bool {
    0 <= cluster < stats.len() && stats[cluster].live_rows > t.max_posting_rows
}

/// The splits of the first `n` clusters; `None` if the neighbors of one that is
/// split cannot be had.
pub open spec fn splits(
    stats: Seq<VectorPostingMaintenanceStats>,
    neighbors: Seq<Option<Seq<u32>>>,
    t: VectorMaintenanceThresholds,
    n: int,
) -> Option<Seq<TaskView>>
    decreases n,
{
    if n <= 0 {
        Some(Seq::empty())
    } else {
        match splits(stats, neighbors, t, n - 1) {
            None => None,
            Some(front) => if !is_split(stats, t, n - 1) {
                Some(front)
            } else {
                match neighbors[n - 1] {
                    None => None,
                    Some(near) => Some(
                        front.push(
                            task_for(stats[n - 1], VectorMaintenanceAction::Split, None, near),
                        ),
                    ),
                }
            },
        }
    }
}

/// The first of some clusters that is not split.
pub open spec fn first_unsplit(
    stats: Seq<VectorPostingMaintenanceStats>,
    t: VectorMaintenanceThresholds,
    near: Seq<u32>,
) -> Option<u32>
    decreases near.len(),
{
    if near.len() == 0 {
        None
    } else if !is_split(stats, t, near[0] as int) {
        Some(near[0])
    } else {
        first_unsplit(stats, t, near.drop_first())
    }
}

/// The merges of the first `n` clusters, with the clusters that take part in one:
/// a cluster below its limit that is neither split nor merged yet is merged with
/// the nearest one that is not split. `None` if its neighbors cannot be had.
pub open spec fn merges(
    stats: Seq<VectorPostingMaintenanceStats>,
    neighbors: Seq<Option<Seq<u32>>>,
    t: VectorMaintenanceThresholds,
    n: int,
) -> Option<(Seq<TaskView>, Set<int>)>
    decreases n,
{
    if n <= 0 {
        Some((Seq::empty(), Set::empty()))
    } else {
        match merges(stats, neighbors, t, n - 1) {
            None => None,
            Some((front, merged)) => {
                let c = n - 1;
                if stats[c].live_rows >= t.min_posting_rows || is_split(stats, t, c)
                    || merged.contains(c) {
                    Some((front, merged))
                } else {
                    match neighbors[c] {
                        None => None,
                        Some(near) => match first_unsplit(stats, t, near) {
                            None => Some((front, merged)),
                            Some(partner) => Some(
                                (
                                    front.push(
                                        task_for(
                                            stats[c],
                                            VectorMaintenanceAction::Merge,
                                            Some(partner),
                                            near,
                                        ),
                                    ),
                                    merged.insert(c).insert(partner as int),
                                ),
                            ),
                        },
                    }
                }
            },
        }
    }
}

/// All the work: splits first, then merges where there is more than one cluster.
pub open spec fn planned(
    stats: Seq<VectorPostingMaintenanceStats>,
    neighbors: Seq<Option<Seq<u32>>>,
    t: VectorMaintenanceThresholds,
) -> Option<Seq<TaskView>> {
    let n = stats.len() as int;
    match splits(stats, neighbors, t, n) {
        None => None,
        Some(first) => if n <= 1 {
            Some(first)
        } else {
            match merges(stats, neighbors, t, n) {
                None => None,
                Some((second, _)) => Some(first + second),
            }
        },
    }
}

fn make_task(
    stat: &VectorPostingMaintenanceStats,
    action: VectorMaintenanceAction,
    partner: Option<u32>,
    near: &Vec<u32>,
) -> (t: VectorMaintenanceTask)
    ensures
        task_view(t) == task_for(*stat, action, partner, near@),
{
    let neighbor_cluster_ids = crate::vector::index::copy_vector(near);
    VectorMaintenanceTask {
        action,
        cluster_id: stat.cluster_id,
        partner_cluster_id: partner,
        neighbor_cluster_ids,
        live_rows: stat.live_rows,
        stale_rows: stat.stale_rows,
        append_rows: stat.append_rows,
        total_rows: stat.total_rows,
    }
}

/// The first of some clusters that is not split.
fn find_unsplit(
    stats: &Vec<VectorPostingMaintenanceStats>,
    t: VectorMaintenanceThresholds,
    near: &Vec<u32>,
) -> (r: Option<u32>)
    ensures
        r == first_unsplit(stats@, t, near@),
        r matches Some(c) ==> near@.contains(c),
{
    let mut i: usize = 0;
    assert(near@.skip(0) =~= near@);
    while i < near.len()
        invariant
            i <= near@.len(),
            first_unsplit(stats@, t, near@) == first_unsplit(stats@, t, near@.skip(i as int)),
        decreases near@.len() - i,
    {
        let c: usize = near[i] as usize;
        let split: bool = c < stats.len() && stats[c].live_rows > t.max_posting_rows;
        assert(near@.skip(i as int)[0] == near@[i as int]);
        if !split {
            return Some(near[i]);
        }
        assert(near@.skip(i as int).drop_first() =~= near@.skip(i + 1));
        i = i + 1;
    }
    None
}

proof fn lemma_tasks_push(ts: Seq<VectorMaintenanceTask>, t: VectorMaintenanceTask)
    ensures
        tasks_view(ts.push(t)) == tasks_view(ts).push(task_view(t)),
{
    assert(tasks_view(ts.push(t)) =~= tasks_view(ts).push(task_view(t)));
}

proof fn lemma_splits_none(
    stats: Seq<VectorPostingMaintenanceStats>,
    neighbors: Seq<Option<Seq<u32>>>,
    t: VectorMaintenanceThresholds,
    i: int,
    n: int,
)
    requires
        0 <= i <= n,
        splits(stats, neighbors, t, i) is None,
    ensures
        splits(stats, neighbors, t, n) is None,
    decreases n - i,
{
    if i < n {
        lemma_splits_none(stats, neighbors, t, i, n - 1);
    }
}

proof fn lemma_merges_none(
    stats: Seq<VectorPostingMaintenanceStats>,
    neighbors: Seq<Option<Seq<u32>>>,
    t: VectorMaintenanceThresholds,
    i: int,
    n: int,
)
    requires
        0 <= i <= n,
        merges(stats, neighbors, t, i) is None,
    ensures
        merges(stats, neighbors, t, n) is None,
    decreases n - i,
{
    if i < n {
        lemma_merges_none(stats, neighbors, t, i, n - 1);
    }
}

/// The counts of a cluster call for work: it has outgrown its limit, or it is one of
/// several and below its limit.
pub open spec fn calls_for_work(
    stats: Seq<VectorPostingMaintenanceStats>,
    t: VectorMaintenanceThresholds,
    c: int,
) -> bool {
    &&& 0 <= c < stats.len()
    &&& is_split(stats, t, c) || (stats.len() > 1 && stats[c].live_rows < t.min_posting_rows)
}

/// The work that the counts call for; where the neighbors of a cluster that needs them
/// cannot be had, that cluster.
pub fn plan_from_stats(
    stats: &Vec<VectorPostingMaintenanceStats>,
    neighbors: &Vec<Option<Vec<u32>>>,
    t: VectorMaintenanceThresholds,
) -> (r: Result<Vec<VectorMaintenanceTask>, usize>)
    requires
        neighbors@.len() == stats@.len(),
        forall|i: int, k: int|
            0 <= i < neighbors@.len() && neighbors@[i] is Some && 0 <= k
                < neighbors@[i]->Some_0@.len() ==> (#[trigger] neighbors@[i]->Some_0@[k])
                < stats@.len(),
    ensures
        match r {
            Ok(tasks) => planned(stats@, neighbors_view(neighbors@), t) == Some(
                tasks_view(tasks@),
            ),
            Err(c) => planned(stats@, neighbors_view(neighbors@), t) is None && calls_for_work(
                stats@,
                t,
                c as int,
            ) && neighbors@[c as int] is None,
        },
{
    let n = stats.len();
    let ghost near_all = neighbors_view(neighbors@);
    let ghost st = stats@;
    let mut tasks: Vec<VectorMaintenanceTask> = Vec::new();
    assert(tasks_view(tasks@) =~= Seq::empty());
    let mut c: usize = 0;
    while c < n
        invariant
            c <= n,
            n == st.len(),
            st == stats@,
            near_all == neighbors_view(neighbors@),
            neighbors@.len() == n,
            splits(st, near_all, t, c as int) == Some(tasks_view(tasks@)),
        decreases n - c,
    {
        if stats[c].live_rows > t.max_posting_rows {
            match &neighbors[c] {
                Some(near) => {
                    assert(near_all[c as int] == Some(near@));
                    let task = make_task(&stats[c], VectorMaintenanceAction::Split, None, near);
                    proof {
                        lemma_tasks_push(tasks@, task);
                    }
                    tasks.push(task);
                },
                None => {
                    proof {
                        assert(near_all[c as int] is None);
                        assert(splits(st, near_all, t, c + 1) is None);
                        lemma_splits_none(st, near_all, t, c + 1, n as int);
                    }
                    return Err(c);
                },
            }
        }
        c = c + 1;
    }
    let ghost first = tasks_view(tasks@);
    if n <= 1 {
        return Ok(tasks);
    }
    let mut merged: Vec<bool> = Vec::new();
    let mut k: usize = 0;
    while k < n
        invariant
            k <= n,
            merged@.len() == k,
            forall|i: int| 0 <= i < k ==> !(#[trigger] merged@[i]),
        decreases n - k,
    {
        merged.push(false);
        k = k + 1;
    }
    let mut c: usize = 0;
    assert(first + Seq::empty() =~= first);
    while c < n
        invariant
            c <= n,
            n == st.len(),
            n > 1,
            st == stats@,
            near_all == neighbors_view(neighbors@),
            neighbors@.len() == n,
            forall|i: int, k: int|
                0 <= i < neighbors@.len() && neighbors@[i] is Some && 0 <= k
                    < neighbors@[i]->Some_0@.len() ==> (#[trigger] neighbors@[i]->Some_0@[k]) < n,
            splits(st, near_all, t, n as int) == Some(first),
            merged@.len() == n,
            merges(st, near_all, t, c as int) is Some,
            forall|i: int|
                0 <= i < n ==> (#[trigger] merged@[i]) == merges(
                    st,
                    near_all,
                    t,
                    c as int,
                )->Some_0.1.contains(i),
            tasks_view(tasks@) == first + merges(st, near_all, t, c as int)->Some_0.0,
        decreases n - c,
    {
        let ghost before = merges(st, near_all, t, c as int)->Some_0;
        assert(merges(st, near_all, t, c as int) == Some((before.0, before.1)));
        assert(merged@[c as int] == before.1.contains(c as int));
        let skip: bool = stats[c].live_rows >= t.min_posting_rows || stats[c].live_rows
            > t.max_posting_rows || merged[c];
        if !skip {
            match &neighbors[c] {
                Some(near) => {
                    assert(near_all[c as int] == Some(near@));
                    match find_unsplit(stats, t, near) {
                        Some(partner) => {
                            proof {
                                let i = near@.index_of(partner);
                                assert(neighbors@[c as int]->Some_0@[i] == partner);
                            }
                            let task = make_task(
                                &stats[c],
                                VectorMaintenanceAction::Merge,
                                Some(partner),
                                near,
                            );
                            proof {
                                lemma_tasks_push(tasks@, task);
                            }
                            let ghost old_tasks = tasks_view(tasks@);
                            tasks.push(task);
                            merged.set(c, true);
                            merged.set(partner as usize, true);
                            assert((first + before.0).push(task_view(task)) =~= first
                                + before.0.push(task_view(task)));
                        },
                        None => {},
                    }
                },
                None => {
                    proof {
                        assert(near_all[c as int] is None);
                        assert(merges(st, near_all, t, c + 1) is None);
                        lemma_merges_none(st, near_all, t, c + 1, n as int);
                    }
                    return Err(c);
                },
            }
        }
        c = c + 1;
    }
    Ok(tasks)
}

/// The neighbors of every cluster.
pub open spec fn are_neighborhoods<
    F: Fn(&Vec<u32>, &Vec<u32>, DistanceMetric) -> Result<u32, Error>,
>(score: F, base: VectorIndex, limit: int, neighbors: Seq<Option<Seq<u32>>>) -> bool {
    &&& neighbors.len() == base.centroids@.len()
    &&& forall|c: int|
        0 <= c < neighbors.len() ==> match #[trigger] neighbors[c] {
            Some(ids) => upkeep::is_neighborhood(score, base, c, limit, ids),
            None => exists|e: Error| #[trigger] upkeep::no_neighbor_score(score, base, c, e),
        }
}

/// Why the neighbors of some clusters cannot be had.
pub open spec fn are_causes<F: Fn(&Vec<u32>, &Vec<u32>, DistanceMetric) -> Result<u32, Error>>(
    score: F,
    base: VectorIndex,
    neighbors: Seq<Option<Seq<u32>>>,
    causes: Seq<Option<Error>>,
) -> bool {
    &&& causes.len() == neighbors.len()
    &&& forall|c: int|
        0 <= c < causes.len() ==> match #[trigger] causes[c] {
            Some(e) => neighbors[c] is None && upkeep::no_neighbor_score(score, base, c, e),
            None => neighbors[c] is Some,
        }
}

/// The neighbors of every cluster, as far as they can be had, and why not.
fn neighborhoods<F: Copy + Fn(&Vec<u32>, &Vec<u32>, DistanceMetric) -> Result<u32, Error>>(
    base: &VectorIndex,
    limit: usize,
    score: F,
) -> (r: (Vec<Option<Vec<u32>>>, Vec<Option<Error>>))
    requires
        vector::can_score(score),
        base.centroids@.len() <= u32::MAX,
    ensures
        are_neighborhoods(score, *base, limit as int, neighbors_view(r.0@)),
        are_causes(score, *base, neighbors_view(r.0@), r.1@),
        r.0@.len() == base.centroids@.len(),
        forall|i: int, k: int|
            0 <= i < r.0@.len() && r.0@[i] is Some && 0 <= k < r.0@[i]->Some_0@.len() ==> (
            #[trigger] r.0@[i]->Some_0@[k]) < base.centroids@.len(),
{
    let mut r: Vec<Option<Vec<u32>>> = Vec::new();
    let mut causes: Vec<Option<Error>> = Vec::new();
    let n = base.centroids.len();
    let mut c: usize = 0;
    while c < n
        invariant
            c <= n,
            n == base.centroids@.len(),
            n <= u32::MAX,
            vector::can_score(score),
            r@.len() == c,
            are_causes(score, *base, neighbors_view(r@), causes@),
            forall|d: int|
                0 <= d < c ==> match #[trigger] neighbors_view(r@)[d] {
                    Some(ids) => upkeep::is_neighborhood(score, *base, d, limit as int, ids),
                    None => exists|e: Error| #[trigger]
                        upkeep::no_neighbor_score(score, *base, d, e),
                },
            forall|i: int, k: int|
                0 <= i < r@.len() && r@[i] is Some && 0 <= k < r@[i]->Some_0@.len() ==> (
                #[trigger] r@[i]->Some_0@[k]) < n,
        decreases n - c,
    {
        let ghost before = r@;
        let ghost causes_before = causes@;
        match nearest_cluster_ids(base, c, limit, score) {
            Ok(ids) => {
                r.push(Some(ids));
                causes.push(None);
            },
            Err(e) => {
                assert(upkeep::no_neighbor_score(score, *base, c as int, e));
                r.push(None);
                causes.push(Some(e));
            },
        }
        assert forall|d: int| 0 <= d < c + 1 implies match #[trigger] neighbors_view(r@)[d] {
            Some(ids) => upkeep::is_neighborhood(score, *base, d, limit as int, ids),
            None => exists|e: Error| #[trigger] upkeep::no_neighbor_score(score, *base, d, e),
        } by {
            if d < c {
                assert(neighbors_view(before)[d] == neighbors_view(r@)[d]);
            }
        }
        assert forall|d: int| 0 <= d < c + 1 implies match #[trigger] causes@[d] {
            Some(e) => neighbors_view(r@)[d] is None && upkeep::no_neighbor_score(
                score,
                *base,
                d,
                e,
            ),
            None => neighbors_view(r@)[d] is Some,
        } by {
            if d < c {
                assert(causes@[d] == causes_before[d]);
                assert(neighbors_view(before)[d] == neighbors_view(r@)[d]);
            }
        }
        assert forall|i: int, k: int|
            0 <= i < r@.len() && r@[i] is Some && 0 <= k < r@[i]->Some_0@.len() implies (
        #[trigger] r@[i]->Some_0@[k]) < n by {
            if i < c {
                assert(r@[i] == before[i]);
                assert(before[i]->Some_0@[k] < n);
            }
        }
        c = c + 1;
    }
    (r, causes)
}

/// How many vectors the base index and its segments hold together.
pub open spec fn segment_rows(base: VectorIndex, appends: Seq<VectorIndex>) -> nat
    decreases appends.len(),
{
    if appends.len() == 0 {
        upkeep::places_of(base.postings@).len()
    } else {
        segment_rows(base, appends.drop_last()) + upkeep::places_of(appends.last().postings@).len()
    }
}

proof fn lemma_segment_rows(base: VectorIndex, appends: Seq<VectorIndex>, i: int)
    requires
        0 <= i <= appends.len(),
    ensures
        segment_rows(base, appends.take(i)) <= segment_rows(base, appends),
    decreases appends.len(),
{
    if i == appends.len() {
        assert(appends.take(i) =~= appends);
    } else {
        lemma_segment_rows(base, appends.drop_last(), i);
        assert(appends.drop_last().take(i) =~= appends.take(i));
    }
}

/// There are as many rows as vectors.
pub proof fn lemma_rows_len<F: Fn(&Vec<u32>, &Vec<u32>, DistanceMetric) -> Result<u32, Error>>(
    score: F,
    base: VectorIndex,
    appends: Seq<VectorIndex>,
    versions: Option<&VectorVersionMap>,
    only_live: bool,
    rows: Seq<Row>,
)
    requires
        upkeep::all_rows(score, base, appends, versions, only_live, rows),
    ensures
        rows.len() == segment_rows(base, appends),
    decreases appends.len(),
{
    if appends.len() > 0 {
        let n = upkeep::places_of(appends.last().postings@).len();
        lemma_rows_len(
            score,
            base,
            appends.drop_last(),
            versions,
            only_live,
            rows.take(rows.len() - n),
        );
    }
}

/// The plan for an index: what the counts of its vectors call for.
pub open spec fn is_plan<F: Fn(&Vec<u32>, &Vec<u32>, DistanceMetric) -> Result<u32, Error>>(
    score: F,
    base: VectorIndex,
    appends: Seq<VectorIndex>,
    versions: Option<&VectorVersionMap>,
    t: VectorMaintenanceThresholds,
    tasks: Seq<TaskView>,
    rows: Seq<Row>,
    stats: Seq<VectorPostingMaintenanceStats>,
    neighbors: Seq<Option<Seq<u32>>>,
) -> bool {
    &&& upkeep::all_rows(score, base, appends, versions, false, rows)
    &&& stats.len() == base.centroids@.len()
    &&& upkeep::stats_count(stats, rows)
    &&& are_neighborhoods(score, base, t.reassign_neighborhood as int, neighbors)
    &&& planned(stats, neighbors, t) == Some(tasks)
}

/// A plan for an index can hold this work.
pub open spec fn can_plan<F: Fn(&Vec<u32>, &Vec<u32>, DistanceMetric) -> Result<u32, Error>>(
    score: F,
    base: VectorIndex,
    appends: Seq<VectorIndex>,
    versions: Option<&VectorVersionMap>,
    t: VectorMaintenanceThresholds,
    tasks: Seq<TaskView>,
) -> bool {
    exists|
        rows: Seq<Row>,
        stats: Seq<VectorPostingMaintenanceStats>,
        neighbors: Seq<Option<Seq<u32>>>,
    | #[trigger]
        is_plan(score, base, appends, versions, t, tasks, rows, stats, neighbors)
}

/// The counts call for work on a cluster whose neighbors cannot be had, for the reason
/// `e`.
pub open spec fn neighbors_missing<
    F: Fn(&Vec<u32>, &Vec<u32>, DistanceMetric) -> Result<u32, Error>,
>(
    score: F,
    base: VectorIndex,
    appends: Seq<VectorIndex>,
    versions: Option<&VectorVersionMap>,
    t: VectorMaintenanceThresholds,
    rows: Seq<Row>,
    stats: Seq<VectorPostingMaintenanceStats>,
    c: int,
    e: Error,
) -> bool {
    &&& upkeep::all_rows(score, base, appends, versions, false, rows)
    &&& stats.len() == base.centroids@.len()
    &&& upkeep::stats_count(stats, rows)
    &&& calls_for_work(stats, t, c)
    &&& upkeep::no_neighbor_score(score, base, c, e)
}

/// Why there is no plan.
pub open spec fn plan_fails<F: Fn(&Vec<u32>, &Vec<u32>, DistanceMetric) -> Result<u32, Error>>(
    score: F,
    base: VectorIndex,
    appends: Seq<VectorIndex>,
    versions: Option<&VectorVersionMap>,
    t: VectorMaintenanceThresholds,
    e: Error,
) -> bool {
    ||| e is Corrupt && versions is Some && versions->Some_0.column@ != base.column@
    ||| upkeep::segment_fails(score, base, base, versions, false, e)
    ||| exists|i: int|
        0 <= i < appends.len() && #[trigger] upkeep::segment_fails(
            score,
            base,
            appends[i],
            versions,
            false,
            e,
        )
    ||| exists|rows: Seq<Row>, stats: Seq<VectorPostingMaintenanceStats>, c: int| #[trigger]
        neighbors_missing(score, base, appends, versions, t, rows, stats, c, e)
}

impl VectorIndex {
    /// Which clusters to split and which to merge, given the segments appended to
    /// the index and the versions in force.
    pub fn plan_maintenance<
        F: Copy + Fn(&Vec<u32>, &Vec<u32>, DistanceMetric) -> Result<u32, Error>,
    >(
        &self,
        appends: &Vec<VectorIndex>,
        version_map: Option<&VectorVersionMap>,
        thresholds: VectorMaintenanceThresholds,
        score: F,
    ) -> (r: Result<VectorMaintenancePlan, Error>)
        requires
            vector::can_score(score),
            version_map matches Some(m) ==> m.wf(),
            self.centroids@.len() <= u32::MAX,
            segment_rows(*self, appends@) < u64::MAX,
        ensures
            match r {
                Ok(plan) => {
                    &&& plan.thresholds == thresholds
                    &&& can_plan(
                        score,
                        *self,
                        appends@,
                        version_map,
                        thresholds,
                        tasks_view(plan.tasks@),
                    )
                },
                Err(e) => plan_fails(score, *self, appends@, version_map, thresholds, e),
            },
    {
        if let Some(m) = version_map {
            match m.check_column(self.column.as_str()) {
                Ok(_) => {},
                Err(e) => {
                    return Err(e);
                },
            }
        }
        let mut stats = no_stats(self.centroids.len());
        proof {
            lemma_segment_rows(*self, appends@, 0);
            assert(appends@.take(0) =~= Seq::empty());
        }
        let Ghost(first) = match accumulate_maintenance_stats(
            self,
            self,
            false,
            version_map,
            &mut stats,
            score,
            Ghost(Seq::empty()),
        ) {
            Ok(rows) => rows,
            Err(e) => {
                return Err(e);
            },
        };
        let ghost mut rows: Seq<Row> = first;
        assert(Seq::<Row>::empty() + first =~= first);
        let mut i: usize = 0;
        while i < appends.len()
            invariant
                i <= appends@.len(),
                vector::can_score(score),
                version_map matches Some(m) ==> m.wf(),
                self.centroids@.len() <= u32::MAX,
                segment_rows(*self, appends@) < u64::MAX,
                stats@.len() == self.centroids@.len(),
                upkeep::stats_count(stats@, rows),
                rows.len() == segment_rows(*self, appends@.take(i as int)),
                upkeep::all_rows(
                    score,
                    *self,
                    appends@.take(i as int),
                    version_map,
                    false,
                    rows,
                ),
            decreases appends@.len() - i,
        {
            proof {
                lemma_segment_rows(*self, appends@, i + 1);
                assert(appends@.take(i + 1).drop_last() =~= appends@.take(i as int));
                assert(appends@.take(i + 1).last() == appends@[i as int]);
            }
            let Ghost(more) = match accumulate_maintenance_stats(
                self,
                &appends[i],
                true,
                version_map,
                &mut stats,
                score,
                Ghost(rows),
            ) {
                Ok(more) => more,
                Err(e) => {
                    assert(upkeep::segment_fails(
                        score,
                        *self,
                        appends@[i as int],
                        version_map,
                        false,
                        e,
                    ));
                    return Err(e);
                },
            };
            proof {
                let next = rows + more;
                let n = more.len();
                assert(next.skip(next.len() - n) =~= more);
                assert(next.take(next.len() - n) =~= rows);
                rows = next;
            }
            i = i + 1;
        }
        assert(appends@.take(i as int) =~= appends@);
        let (neighbors, mut causes) = neighborhoods(self, thresholds.reassign_neighborhood, score);
        match plan_from_stats(&stats, &neighbors, thresholds) {
            Ok(tasks) => {
                assert(is_plan(
                    score,
                    *self,
                    appends@,
                    version_map,
                    thresholds,
                    tasks_view(tasks@),
                    rows,
                    stats@,
                    neighbors_view(neighbors@),
                ));
                Ok(VectorMaintenancePlan { thresholds, tasks })
            },
            Err(c) => {
                assert(neighbors_view(neighbors@)[c as int] is None);
                assert(causes@[c as int] is Some);
                let e = causes.swap_remove(c).unwrap();
                assert(neighbors_missing(
                    score,
                    *self,
                    appends@,
                    version_map,
                    thresholds,
                    rows,
                    stats@,
                    c as int,
                    e,
                ));
                Err(e)
            },
        }
    }
}

/// Splits and merges keep out of each other's way: a cluster that is split takes
/// part in no merge, neither as the one that is too small nor as its partner.
pub proof fn law_split_clusters_are_not_merged(
    stats: Seq<VectorPostingMaintenanceStats>,
    neighbors: Seq<Option<Seq<u32>>>,
    t: VectorMaintenanceThresholds,
    i: int,
)
    requires
        planned(stats, neighbors, t) is Some,
        forall|c: int| 0 <= c < stats.len() ==> (#[trigger] stats[c]).cluster_id == c,
        0 <= i < planned(stats, neighbors, t)->Some_0.len(),
    ensures
        ({
            let task = planned(stats, neighbors, t)->Some_0[i];
            match task.action {
                VectorMaintenanceAction::Split => is_split(stats, t, task.cluster_id as int),
                VectorMaintenanceAction::Merge => !is_split(stats, t, task.cluster_id as int)
                    && task.partner_cluster_id is Some && !is_split(
                    stats,
                    t,
                    task.partner_cluster_id->Some_0 as int,
                ),
            }
        }),
{
    let n = stats.len() as int;
    let first = splits(stats, neighbors, t, n)->Some_0;
    lemma_split_tasks(stats, neighbors, t, n);
    if i < first.len() {
        assert(planned(stats, neighbors, t)->Some_0[i] == first[i]);
    } else {
        lemma_merge_tasks(stats, neighbors, t, n);
        let second = merges(stats, neighbors, t, n)->Some_0.0;
        assert(planned(stats, neighbors, t)->Some_0[i] == second[i - first.len()]);
    }
}

proof fn lemma_split_tasks(
    stats: Seq<VectorPostingMaintenanceStats>,
    neighbors: Seq<Option<Seq<u32>>>,
    t: VectorMaintenanceThresholds,
    n: int,
)
    requires
        0 <= n <= stats.len(),
        splits(stats, neighbors, t, n) is Some,
        forall|c: int| 0 <= c < stats.len() ==> (#[trigger] stats[c]).cluster_id == c,
    ensures
        forall|i: int|
            0 <= i < splits(stats, neighbors, t, n)->Some_0.len() ==> {
                let task = #[trigger] splits(stats, neighbors, t, n)->Some_0[i];
                task.action == VectorMaintenanceAction::Split && is_split(
                    stats,
                    t,
                    task.cluster_id as int,
                )
            },
    decreases n,
{
    if n > 0 {
        lemma_split_tasks(stats, neighbors, t, n - 1);
        let front = splits(stats, neighbors, t, n - 1)->Some_0;
        let all = splits(stats, neighbors, t, n)->Some_0;
        assert(stats[n - 1].cluster_id == n - 1);
        assert forall|i: int| 0 <= i < all.len() implies {
            let task = #[trigger] all[i];
            task.action == VectorMaintenanceAction::Split && is_split(
                stats,
                t,
                task.cluster_id as int,
            )
        } by {
            if i < front.len() {
                assert(all[i] == front[i]);
            }
        }
    }
}

proof fn lemma_unsplit(
    stats: Seq<VectorPostingMaintenanceStats>,
    t: VectorMaintenanceThresholds,
    near: Seq<u32>,
)
    ensures
        first_unsplit(stats, t, near) matches Some(c) ==> !is_split(stats, t, c as int),
    decreases near.len(),
{
    if near.len() > 0 {
        lemma_unsplit(stats, t, near.drop_first());
    }
}

proof fn lemma_merge_tasks(
    stats: Seq<VectorPostingMaintenanceStats>,
    neighbors: Seq<Option<Seq<u32>>>,
    t: VectorMaintenanceThresholds,
    n: int,
)
    requires
        0 <= n <= stats.len(),
        merges(stats, neighbors, t, n) is Some,
        forall|c: int| 0 <= c < stats.len() ==> (#[trigger] stats[c]).cluster_id == c,
    ensures
        forall|i: int|
            0 <= i < merges(stats, neighbors, t, n)->Some_0.0.len() ==> {
                let task = #[trigger] merges(stats, neighbors, t, n)->Some_0.0[i];
                task.action == VectorMaintenanceAction::Merge && !is_split(
                    stats,
                    t,
                    task.cluster_id as int,
                ) && task.partner_cluster_id is Some && !is_split(
                    stats,
                    t,
                    task.partner_cluster_id->Some_0 as int,
                )
            },
    decreases n,
{
    if n > 0 {
        lemma_merge_tasks(stats, neighbors, t, n - 1);
        let front = merges(stats, neighbors, t, n - 1)->Some_0.0;
        let all = merges(stats, neighbors, t, n)->Some_0.0;
        assert(stats[n - 1].cluster_id == n - 1);
        match neighbors[n - 1] {
            Some(near) => {
                lemma_unsplit(stats, t, near);
            },
            None => {},
        }
        assert forall|i: int| 0 <= i < all.len() implies {
            let task = #[trigger] all[i];
            task.action == VectorMaintenanceAction::Merge && !is_split(
                stats,
                t,
                task.cluster_id as int,
            ) && task.partner_cluster_id is Some && !is_split(
                stats,
                t,
                task.partner_cluster_id->Some_0 as int,
            )
        } by {
            if i < front.len() {
                assert(all[i] == front[i]);
            }
        }
    }
}

/// Every cluster that has outgrown its limit is split, and no other: each piece of work
/// says so of a cluster with more rows than the most, and such a cluster has its piece.
pub proof fn law_outgrown_clusters_are_split(
    stats: Seq<VectorPostingMaintenanceStats>,
    neighbors: Seq<Option<Seq<u32>>>,
    t: VectorMaintenanceThresholds,
    n: int,
    c: int,
)
    requires
        0 <= c < n <= stats.len(),
        splits(stats, neighbors, t, n) is Some,
    ensures
        stats[c].live_rows > t.max_posting_rows ==> exists|i: int|
            0 <= i < splits(stats, neighbors, t, n)->Some_0.len() && (#[trigger] splits(
                stats,
                neighbors,
                t,
                n,
            )->Some_0[i]).cluster_id == stats[c].cluster_id,
        forall|i: int|
            0 <= i < splits(stats, neighbors, t, n)->Some_0.len() ==> {
                let task = #[trigger] splits(stats, neighbors, t, n)->Some_0[i];
                &&& task.live_rows > t.max_posting_rows
                &&& task.action == VectorMaintenanceAction::Split
                &&& task.partner_cluster_id is None
            },
    decreases n,
{
    let all = splits(stats, neighbors, t, n)->Some_0;
    let front = splits(stats, neighbors, t, n - 1)->Some_0;
    if n > 1 {
        law_outgrown_clusters_are_split(
            stats,
            neighbors,
            t,
            n - 1,
            if c < n - 1 {
                c
            } else {
                0
            },
        );
    } else {
        assert(front =~= Seq::empty());
    }
    if stats[c].live_rows > t.max_posting_rows {
        if c < n - 1 {
            let i = choose|i: int|
                0 <= i < front.len() && (#[trigger] front[i]).cluster_id == stats[c].cluster_id;
            assert(all[i] == front[i]);
        } else {
            assert(is_split(stats, t, c));
            assert(all[front.len() as int].cluster_id == stats[c].cluster_id);
        }
    }
    assert forall|i: int| 0 <= i < all.len() implies {
        let task = #[trigger] all[i];
        &&& task.live_rows > t.max_posting_rows
        &&& task.action == VectorMaintenanceAction::Split
        &&& task.partner_cluster_id is None
    } by {
        if i < front.len() {
            assert(all[i] == front[i]);
        }
    }
}

/// Of some clusters, the nearest first, the one at `k` is not split and all that are nearer
/// are.
pub open spec fn is_nearest_unsplit(
    stats: Seq<VectorPostingMaintenanceStats>,
    t: VectorMaintenanceThresholds,
    near: Seq<u32>,
    k: int,
) -> bool {
    &&& 0 <= k < near.len()
    &&& !is_split(stats, t, near[k] as int)
    &&& forall|j: int| 0 <= j < k ==> is_split(stats, t, (#[trigger] near[j]) as int)
}

/// A cluster is merged only if it has fewer rows than the least, and with the nearest of
/// its neighbors that is not split: all that are nearer are.
pub proof fn law_small_clusters_are_merged_with_the_nearest(
    stats: Seq<VectorPostingMaintenanceStats>,
    neighbors: Seq<Option<Seq<u32>>>,
    t: VectorMaintenanceThresholds,
    n: int,
    i: int,
)
    requires
        0 <= n <= stats.len(),
        merges(stats, neighbors, t, n) is Some,
        0 <= i < merges(stats, neighbors, t, n)->Some_0.0.len(),
    ensures
        ({
            let task = merges(stats, neighbors, t, n)->Some_0.0[i];
            &&& task.action == VectorMaintenanceAction::Merge
            &&& task.live_rows < t.min_posting_rows
            &&& task.live_rows <= t.max_posting_rows
            &&& exists|k: int| #[trigger]
                is_nearest_unsplit(stats, t, task.neighbor_cluster_ids, k)
                    && task.partner_cluster_id == Some(task.neighbor_cluster_ids[k])
        }),
    decreases n,
{
    let all = merges(stats, neighbors, t, n)->Some_0.0;
    let front = merges(stats, neighbors, t, n - 1)->Some_0.0;
    if n > 0 {
        if i < front.len() {
            law_small_clusters_are_merged_with_the_nearest(stats, neighbors, t, n - 1, i);
            assert(all[i] == front[i]);
        } else {
            let near = neighbors[n - 1]->Some_0;
            lemma_first_unsplit(stats, t, near);
            let partner = first_unsplit(stats, t, near);
            assert(partner is Some);
            let task = task_for(stats[n - 1], VectorMaintenanceAction::Merge, partner, near);
            assert(all[i] == task);
            let k = choose|k: int| #[trigger]
                is_nearest_unsplit(stats, t, near, k) && near[k] == partner->Some_0;
            assert(is_nearest_unsplit(stats, t, task.neighbor_cluster_ids, k));
        }
    }
}

proof fn lemma_first_unsplit(
    stats: Seq<VectorPostingMaintenanceStats>,
    t: VectorMaintenanceThresholds,
    near: Seq<u32>,
)
    ensures
        first_unsplit(stats, t, near) matches Some(c) ==> exists|k: int| #[trigger]
            is_nearest_unsplit(stats, t, near, k) && near[k] == c,
    decreases near.len(),
{
    if near.len() > 0 {
        if !is_split(stats, t, near[0] as int) {
            assert(is_nearest_unsplit(stats, t, near, 0));
        } else {
            let rest = near.drop_first();
            lemma_first_unsplit(stats, t, rest);
            if let Some(c) = first_unsplit(stats, t, rest) {
                let k = choose|k: int| #[trigger]
                    is_nearest_unsplit(stats, t, rest, k) && rest[k] == c;
                assert(near[k + 1] == rest[k]);
                assert forall|j: int| 0 <= j < k + 1 implies is_split(
                    stats,
                    t,
                    (#[trigger] near[j]) as int,
                ) by {
                    if j > 0 {
                        assert(rest[j - 1] == near[j]);
                    }
                }
                assert(is_nearest_unsplit(stats, t, near, k + 1));
            }
        }
    }
}

} // verus!
