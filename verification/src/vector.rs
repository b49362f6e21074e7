//! The vector index: vectors in clusters around centroids, searched by probing
//! the nearest clusters.
//!
//! The components of vectors and the scores are held by the bits of their
//! single-precision values. Scores are computed by a function that callers pass
//! in; a higher score is better.

use vstd::prelude::*;

use crate::strings;
use crate::strings::same_text;
use crate::phrase::say;
use crate::error::Error;
use crate::order::Order;
use crate::schema::DistanceMetric;
use crate::sorted::{Key, SortedMap};
use crate::sorting;
use crate::sorting::{arrange, Comparison};
use crate::value;
use crate::value::{compare_ids, copy_id, Id, IdView};
use crate::vector::filter::VectorFilterIndex;

pub mod filter;
pub mod index;
pub mod kernel;
pub mod mask;
pub mod moves;
pub mod numbers;
pub mod plan;
pub mod search;
pub mod upkeep;

verus! {

/// The format of a stored vector index.
pub const VECTOR_FORMAT_VERSION: u32 = 1;

/// The format of a stored version map.
pub const VERSION_MAP_FORMAT_VERSION: u32 = 1;

/// How often clusters are formed anew before an index is built.
pub const KMEANS_ITERS: usize = 8;

/// More clusters than this are not formed.
pub const MAX_CLUSTERS: usize = 16;

/// A vector in the index.
#[derive(Clone, Debug)]
pub struct VectorEntry {
    pub id: Id,
    pub vector: Vec<u32>,
    pub local_id: u32,
    pub version: u64,
}

/// The vectors of one cluster.
#[derive(Clone, Debug)]
pub struct VectorPosting {
    pub centroid_id: u32,
    pub vectors: Vec<VectorEntry>,
}

/// Where the vector of a document is.
#[derive(Clone, Debug, PartialEq, Eq)]
pub struct VectorAddress {
    pub id: Id,
    pub cluster_id: u32,
    pub local_id: u32,
    pub version: u64,
}

/// A vector index.
#[derive(Debug)]
pub struct VectorIndex {
    pub format_version: u32,
    pub column: String,
    pub dim: usize,
    pub metric: DistanceMetric,
    pub centroids: Vec<Vec<u32>>,
    pub postings: Vec<VectorPosting>,
    pub addresses: Vec<VectorAddress>,
    pub filter_index: VectorFilterIndex,
}

/// What a search found.
#[derive(Clone, Debug)]
pub struct VectorHit {
    pub id: Id,
    pub version: u64,
    pub score: u32,
}

/// What an entry stands for, apart from its place.
pub struct EntryView {
    pub id: IdView,
    pub vector: Seq<u32>,
    pub version: u64,
}

pub open spec fn entry_view(e: VectorEntry) -> EntryView {
    EntryView { id: e.id@, vector: e.vector@, version: e.version }
}

/// How many vectors each cluster has.
pub open spec fn shape_of(postings: Seq<VectorPosting>) -> Seq<usize> {
    Seq::new(postings.len(), |c: int| postings[c].vectors.len())
}

/// Clusters and the vectors in them carry their positions.
pub open spec fn postings_wf(postings: Seq<VectorPosting>) -> bool {
    &&& forall|c: int| 0 <= c < postings.len() ==> (#[trigger] postings[c]).centroid_id == c
    &&& forall|c: int, l: int|
        0 <= c < postings.len() && 0 <= l < postings[c].vectors@.len() ==> (
        #[trigger] postings[c].vectors@[l]).local_id == l
}

/// How many vectors each cluster has.
pub fn row_counts_of(postings: &Vec<VectorPosting>) -> (counts: Vec<usize>)
    ensures
        counts@ == shape_of(postings@),
{
    let mut counts: Vec<usize> = Vec::new();
    let mut c: usize = 0;
    while c < postings.len()
        invariant
            c <= postings@.len(),
            counts@ == shape_of(postings@).take(c as int),
        decreases postings@.len() - c,
    {
        counts.push(postings[c].vectors.len());
        c = c + 1;
        assert(counts@ =~= shape_of(postings@).take(c as int));
    }
    assert(counts@ =~= shape_of(postings@));
    counts
}

// ---------------------------------------------------------------------------
// Scores
// ---------------------------------------------------------------------------

/// Below this the sign of a score is plus.
pub const SCORE_SIGN: u32 = 0x8000_0000;

/// The magnitude bits of an infinite score; above it are the NaNs.
pub const SCORE_INFINITY: u32 = 0x7f80_0000;

/// The lowest score.
pub const SCORE_LOWEST: u32 = 0xff80_0000;

/// The place of a score in the order of the scores, with both zeros at zero; a NaN
/// has none.
pub open spec fn score_rank(bits: u32) -> Option<int> {
    if bits % SCORE_SIGN > SCORE_INFINITY {
        None
    } else if bits < SCORE_SIGN {
        Some(bits as int)
    } else {
        Some(-(bits - SCORE_SIGN))
    }
}

/// Score `a` is higher than score `b`; a NaN neither beats nor is beaten.
pub open spec fn beats(a: u32, b: u32) -> bool {
    match (score_rank(a), score_rank(b)) {
        (Some(x), Some(y)) => x > y,
        _ => false,
    }
}

/// The place of a score where scores are sorted; a NaN goes below all others.
pub open spec fn score_place(bits: u32) -> int {
    match score_rank(bits) {
        Some(x) => x,
        None => -0x8000_0000,
    }
}

/// The place of a score where scores are sorted.
pub fn place_of(bits: u32) -> (x: i64)
    ensures
        x == score_place(bits),
{
    if bits % SCORE_SIGN > SCORE_INFINITY {
        -0x8000_0000
    } else if bits < SCORE_SIGN {
        bits as i64
    } else {
        -((bits - SCORE_SIGN) as i64)
    }
}

/// Whether score `a` is higher than score `b`.
pub fn score_beats(a: u32, b: u32) -> (r: bool)
    ensures
        r == beats(a, b),
{
    if a % SCORE_SIGN > SCORE_INFINITY || b % SCORE_SIGN > SCORE_INFINITY {
        false
    } else {
        place_of(a) > place_of(b)
    }
}

/// The function can be asked for the score of any two vectors.
pub open spec fn can_score<F: Fn(&Vec<u32>, &Vec<u32>, DistanceMetric) -> Result<u32, Error>>(
    score: F,
) -> bool {
    forall|a: &Vec<u32>, b: &Vec<u32>, m: DistanceMetric| #[trigger]
        call_requires(score, (a, b, m))
}

/// `s` is a score of two vectors.
pub open spec fn scores<F: Fn(&Vec<u32>, &Vec<u32>, DistanceMetric) -> Result<u32, Error>>(
    score: F,
    a: Vec<u32>,
    b: Vec<u32>,
    m: DistanceMetric,
    s: u32,
) -> bool {
    call_ensures(score, (&a, &b, m), Ok::<u32, Error>(s))
}

/// Two vectors may have no score, for the reason `e`.
pub open spec fn no_score<F: Fn(&Vec<u32>, &Vec<u32>, DistanceMetric) -> Result<u32, Error>>(
    score: F,
    a: Vec<u32>,
    b: Vec<u32>,
    m: DistanceMetric,
    e: Error,
) -> bool {
    call_ensures(score, (&a, &b, m), Err::<u32, Error>(e))
}

/// A vector has no score with one of some others, for the reason `e`.
pub open spec fn no_score_with<F: Fn(&Vec<u32>, &Vec<u32>, DistanceMetric) -> Result<u32, Error>>(
    score: F,
    a: Vec<u32>,
    others: Seq<Vec<u32>>,
    m: DistanceMetric,
    e: Error,
) -> bool {
    exists|i: int| 0 <= i < others.len() && #[trigger] no_score(score, a, others[i], m, e)
}

/// A vector has a score with itself.
pub open spec fn has_own_score<F: Fn(&Vec<u32>, &Vec<u32>, DistanceMetric) -> Result<u32, Error>>(
    score: F,
    a: Vec<u32>,
    m: DistanceMetric,
) -> bool {
    exists|s: u32| #[trigger] scores(score, a, a, m, s)
}

/// How hits compare: the higher score stands first, and where neither is higher the
/// lower key. A NaN is neither higher nor lower than any score.
pub struct BestFirst;

/// `a` may stand before `b`.
pub open spec fn hit_precedes(a: VectorHit, b: VectorHit) -> bool {
    beats(a.score, b.score) || (!beats(b.score, a.score) && value::id_order(a.id@, b.id@)
        != Order::Greater)
}

impl Comparison<VectorHit> for BestFirst {
    open spec fn ranks(&self, a: VectorHit) -> bool {
        true
    }

    open spec fn precedes(&self, a: VectorHit, b: VectorHit) -> bool {
        hit_precedes(a, b)
    }

    proof fn lemma_total(&self, a: VectorHit, b: VectorHit) {
        <Id as Key>::lemma_total(a.id@, b.id@);
        <Id as Key>::lemma_total(b.id@, a.id@);
    }

    fn in_order(&self, a: &VectorHit, b: &VectorHit) -> (r: bool) {
        score_beats(a.score, b.score) || (!score_beats(b.score, a.score) && !matches!(
            compare_ids(&a.id, &b.id),
            Order::Greater
        ))
    }
}

/// Hits whose scores are numbers are ordered: sorting them puts them in order.
pub proof fn law_numbered_hits_are_ordered(hits: Seq<VectorHit>)
    requires
        forall|i: int| 0 <= i < hits.len() ==> score_rank((#[trigger] hits[i]).score) is Some,
    ensures
        sorting::is_consistent(hits, BestFirst),
{
    assert forall|a: VectorHit, b: VectorHit, c: VectorHit|
        hits.contains(a) && hits.contains(b) && hits.contains(c) && #[trigger] BestFirst.precedes(
            a,
            b,
        ) && #[trigger] BestFirst.precedes(b, c) implies BestFirst.precedes(a, c) by {
        assert(score_rank(hits[hits.index_of(a)].score) is Some);
        assert(score_rank(hits[hits.index_of(b)].score) is Some);
        assert(score_rank(hits[hits.index_of(c)].score) is Some);
        lemma_ids_transitive(a.id@, b.id@, c.id@);
    }
}

/// The order of keys, equal ones included, is transitive.
pub proof fn lemma_ids_transitive(a: IdView, b: IdView, c: IdView)
    ensures
        value::id_order(a, b) != Order::Greater && value::id_order(b, c) != Order::Greater ==> value::id_order(a, c)
            != Order::Greater,
{
    <Id as Key>::lemma_total(a, b);
    <Id as Key>::lemma_total(b, c);
    <Id as Key>::lemma_total(a, c);
    if value::id_order(a, b) == Order::Less && value::id_order(b, c) == Order::Less {
        <Id as Key>::lemma_transitive(a, b, c);
    }
}

/// Sorts hits, best first. Hits that the comparison does not order, as NaN scores
/// among others can do, come in some order.
pub fn sort_hits(hits: &mut Vec<VectorHit>)
    ensures
        sorting::is_arrangement(old(hits)@, final(hits)@, BestFirst),
        final(hits)@.len() == old(hits)@.len(),
{
    let mut taken: Vec<VectorHit> = Vec::new();
    std::mem::swap(&mut taken, hits);
    let mut sorted = arrange(taken, &BestFirst);
    std::mem::swap(&mut sorted, hits);
}

// ---------------------------------------------------------------------------
// Versions
// ---------------------------------------------------------------------------

/// Which version of the vector of each document is in force.
#[derive(Debug)]
pub struct VectorVersionMap {
    pub format_version: u32,
    pub column: String,
    pub versions: SortedMap<Id, u64>,
}

/// A cluster holds a vector of a document in some version.
pub open spec fn has_entry(
    postings: Seq<VectorPosting>,
    c: int,
    l: int,
    id: IdView,
    version: u64,
) -> bool {
    0 <= c < postings.len() && 0 <= l < postings[c].vectors@.len()
        && postings[c].vectors@[l].id@ == id && postings[c].vectors@[l].version == version
}

/// Some cluster holds a vector of a document in some version.
pub open spec fn holds_entry(postings: Seq<VectorPosting>, id: IdView, version: u64) -> bool {
    exists|c: int, l: int| #[trigger] has_entry(postings, c, l, id, version)
}

impl VectorVersionMap {
    pub open spec fn wf(self) -> bool {
        self.versions.wf()
    }

    /// The version of a document, if it has one.
    pub open spec fn version_of(self, id: IdView) -> Option<u64> {
        if self.versions.map().dom().contains(id) {
            Some(self.versions.map()[id])
        } else {
            None
        }
    }

    /// The newest version of every vector of an index.
    pub fn from_index(index: &VectorIndex) -> (m: VectorVersionMap)
        ensures
            m.wf(),
            m.format_version == VERSION_MAP_FORMAT_VERSION,
            m.column@ == index.column@,
            forall|c: int, l: int, id: IdView, v: u64| #[trigger]
                has_entry(index.postings@, c, l, id, v) ==> m.version_of(id) is Some
                    && m.version_of(id)->Some_0 >= v,
            forall|id: IdView|
                m.versions.map().dom().contains(id) ==> holds_entry(
                    index.postings@,
                    id,
                    #[trigger] m.versions.map()[id],
                ),
    {
        let ghost ps = index.postings@;
        let mut versions: SortedMap<Id, u64> = SortedMap::new();
        let mut c: usize = 0;
        while c < index.postings.len()
            invariant
                c <= ps.len(),
                ps == index.postings@,
                versions_upto(versions, ps, c as int, 0),
            decreases ps.len() - c,
        {
            let posting = &index.postings[c];
            let mut l: usize = 0;
            while l < posting.vectors.len()
                invariant
                    l <= posting.vectors@.len(),
                    c < ps.len(),
                    *posting == ps[c as int],
                    versions_upto(versions, ps, c as int, l as int),
                decreases posting.vectors@.len() - l,
            {
                let entry = &posting.vectors[l];
                let newest: u64 = match versions.get(&entry.id) {
                    Some(v) => if *v >= entry.version {
                        *v
                    } else {
                        entry.version
                    },
                    None => entry.version,
                };
                let ghost before = versions;
                let ghost id = entry.id@;
                assert(has_entry(ps, c as int, l as int, id, entry.version));
                versions.insert(copy_id(&entry.id), newest);
                proof {
                    lemma_version_noted(before, versions, ps, c as int, l as int, newest);
                }
                l = l + 1;
            }
            assert forall|d: int, m: int, id: IdView, v: u64| #[trigger]
                has_entry(ps, d, m, id, v) && place_before(d, m, c + 1, 0) implies {
                &&& versions.map().dom().contains(id)
                &&& versions.map()[id] >= v
            } by {
                assert(place_before(d, m, c as int, l as int));
            }
            c = c + 1;
        }
        let m = VectorVersionMap {
            format_version: VERSION_MAP_FORMAT_VERSION,
            column: index.column.clone(),
            versions,
        };
        assert forall|c: int, l: int, id: IdView, v: u64| #[trigger]
            has_entry(ps, c, l, id, v) implies m.version_of(id) is Some && m.version_of(id)->Some_0
            >= v by {
            assert(place_before(c, l, ps.len() as int, 0));
        }
        m
    }

    /// Refuses a map of another column than that of an index.
    pub(crate) fn check_column(&self, column: &str) -> (r: Result<(), Error>)
        ensures
            r is Ok <==> self.column@ == column@,
            r is Err ==> r->Err_0 is Corrupt && r->Err_0->Corrupt_0@
                == "vector version map column '"@ + self.column@
                + "' does not match index column '"@ + column@ + "'"@,
    {
        if !same_text(self.column.as_str(), column) {
            return Err(
                Error::Corrupt(
                    say("vector version map column '").and(self.column.as_str()).and(
                        "' does not match index column '",
                    ).and(column).and("'").done(),
                ),
            );
        }
        Ok(())
    }

    /// A map of a known format.
    pub fn check_format(&self) -> (r: Result<(), Error>)
        ensures
            r is Ok <==> self.format_version == VERSION_MAP_FORMAT_VERSION,
            r is Err ==> r->Err_0 is Corrupt && r->Err_0->Corrupt_0@
                == "unsupported vector version map body version "@ + strings::decimal(
                self.format_version as nat,
            ),
    {
        if self.format_version != VERSION_MAP_FORMAT_VERSION {
            return Err(Error::Corrupt(
                    say("unsupported vector version map body version ").number(
                        self.format_version as u64,
                    ).done(),
                ));
        }
        Ok(())
    }

    /// The version of a document that is in force.
    pub fn live_version(&self, id: &Id) -> (v: Option<u64>)
        requires
            self.wf(),
        ensures
            v == self.version_of(id@),
    {
        match self.versions.get(id) {
            Some(v) => Some(*v),
            None => None,
        }
    }

    /// Whether a version of a document is the one in force.
    pub fn is_live(&self, id: &Id, version: u64) -> (b: bool)
        requires
            self.wf(),
        ensures
            b == (self.version_of(id@) == Some(version)),
    {
        match self.live_version(id) {
            Some(v) => v == version,
            None => false,
        }
    }
}

/// A place before place `l` of cluster `c`.
spec fn place_before(d: int, m: int, c: int, l: int) -> bool {
    d < c || (d == c && m < l)
}

/// The newest versions of the vectors before place `l` of cluster `c`.
spec fn versions_upto(versions: SortedMap<Id, u64>, ps: Seq<VectorPosting>, c: int, l: int) -> bool {
    &&& versions.wf()
    &&& forall|d: int, m: int, id: IdView, v: u64| #[trigger]
        has_entry(ps, d, m, id, v) && place_before(d, m, c, l) ==> {
            &&& versions.map().dom().contains(id)
            &&& versions.map()[id] >= v
        }
    &&& forall|id: IdView|
        versions.map().dom().contains(id) ==> holds_entry(ps, id, #[trigger] versions.map()[id])
}

proof fn lemma_version_noted(
    before: SortedMap<Id, u64>,
    after: SortedMap<Id, u64>,
    ps: Seq<VectorPosting>,
    c: int,
    l: int,
    newest: u64,
)
    requires
        versions_upto(before, ps, c, l),
        0 <= c < ps.len(),
        0 <= l < ps[c].vectors@.len(),
        after.wf(),
        ({
            let e = ps[c].vectors@[l];
            &&& after.map() == before.map().insert(e.id@, newest)
            &&& newest >= e.version
            &&& newest == e.version || (before.map().dom().contains(e.id@) && newest
                == before.map()[e.id@])
            &&& before.map().dom().contains(e.id@) ==> newest >= before.map()[e.id@]
        }),
    ensures
        versions_upto(after, ps, c, l + 1),
{
    let e = ps[c].vectors@[l];
    assert forall|d: int, m: int, id: IdView, v: u64| #[trigger]
        has_entry(ps, d, m, id, v) && place_before(d, m, c, l + 1) implies {
        &&& after.map().dom().contains(id)
        &&& after.map()[id] >= v
    } by {
        if !place_before(d, m, c, l) {
            assert(d == c && m == l);
        }
    }
    assert forall|id: IdView| after.map().dom().contains(id) implies holds_entry(
        ps,
        id,
        #[trigger] after.map()[id],
    ) by {
        if id == e.id@ {
            assert(has_entry(ps, c, l, id, e.version));
            if newest != e.version {
                assert(holds_entry(ps, id, before.map()[id]));
            }
        } else {
            assert(before.map().dom().contains(id));
            assert(holds_entry(ps, id, before.map()[id]));
        }
    }
}

} // verus!
