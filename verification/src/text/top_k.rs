//! The best of the documents scored so far.

use vstd::prelude::*;

use crate::rounding;
use crate::order::Order;
use crate::sorted;
use crate::sorted::{Key, SortedMap, SortedSet};
use crate::value;
use crate::value::{compare_ids, copy_id, Id, IdView};
use crate::vector;
use crate::vector::score_beats;

verus! {

/// The place of a score in the order of all bit patterns, in which a negative zero
/// stands below a positive one, and a NaN above or below all numbers by its sign.
pub open spec fn total_place(bits: u32) -> int {
    if bits < vector::SCORE_SIGN {
        bits as int
    } else {
        -(bits - vector::SCORE_SIGN) - 1
    }
}

/// The place of a score in the order of all bit patterns.
pub fn total_place_of(bits: u32) -> (x: i64)
    ensures
        x == total_place(bits),
{
    if bits < vector::SCORE_SIGN {
        bits as i64
    } else {
        -((bits - vector::SCORE_SIGN) as i64) - 1
    }
}

/// A document with its score.
#[derive(Clone, Debug)]
pub struct ScoredId {
    pub score: u32,
    pub id: Id,
}

impl View for ScoredId {
    type V = (u32, IdView);

    open spec fn view(&self) -> (u32, IdView) {
        (self.score, self.id@)
    }
}

/// The order of documents with scores: by score, then by key.
pub open spec fn scored_order(a: (u32, IdView), b: (u32, IdView)) -> Order {
    if total_place(a.0) < total_place(b.0) {
        Order::Less
    } else if total_place(a.0) > total_place(b.0) {
        Order::Greater
    } else {
        value::id_order(a.1, b.1)
    }
}

impl Key for ScoredId {
    open spec fn order(a: (u32, IdView), b: (u32, IdView)) -> Order {
        scored_order(a, b)
    }

    proof fn lemma_total(a: (u32, IdView), b: (u32, IdView)) {
        value::lemma_ids_total(a.1, b.1);
        assert(total_place(a.0) == total_place(b.0) ==> a.0 == b.0);
        assert(<ScoredId as Key>::order(a, b) == scored_order(a, b));
        assert(<ScoredId as Key>::order(b, a) == scored_order(b, a));
    }

    proof fn lemma_transitive(a: (u32, IdView), b: (u32, IdView), c: (u32, IdView)) {
        assert(<ScoredId as Key>::order(a, b) == scored_order(a, b));
        assert(<ScoredId as Key>::order(b, c) == scored_order(b, c));
        assert(<ScoredId as Key>::order(a, c) == scored_order(a, c));
        assert(<Id as Key>::order(a.1, b.1) == value::id_order(a.1, b.1));
        assert(<Id as Key>::order(b.1, c.1) == value::id_order(b.1, c.1));
        assert(<Id as Key>::order(a.1, c.1) == value::id_order(a.1, c.1));
        if value::id_order(a.1, b.1) == Order::Less && value::id_order(b.1, c.1) == Order::Less {
            <Id as Key>::lemma_transitive(a.1, b.1, c.1);
        }
    }

    fn compare(&self, other: &ScoredId) -> (o: Order) {
        let a: i64 = total_place_of(self.score);
        let b: i64 = total_place_of(other.score);
        if a < b {
            Order::Less
        } else if a > b {
            Order::Greater
        } else {
            compare_ids(&self.id, &other.id)
        }
    }
}

/// `id` is the document that ranks below all others.
pub open spec fn is_lowest(kept: Map<IdView, u32>, id: IdView) -> bool {
    &&& kept.dom().contains(id)
    &&& forall|other: IdView|
        kept.dom().contains(other) && other != id ==> scored_order(
            (kept[id], id),
            (#[trigger] kept[other], other),
        ) == Order::Less
}

/// The document that ranks below all others.
pub open spec fn lowest(kept: Map<IdView, u32>) -> IdView {
    choose|id: IdView| is_lowest(kept, id)
}

/// The score that a new document has to beat.
pub open spec fn threshold_of(kept: Map<IdView, u32>, k: nat) -> Option<u32> {
    if kept.dom().len() < k || kept.dom().len() == 0 {
        None
    } else {
        Some(kept[lowest(kept)])
    }
}

/// What is kept once a document has a score: all, as long as there are at most `k`;
/// then a new one only if it beats the lowest, which has to go.
pub open spec fn after_observing(kept: Map<IdView, u32>, k: nat, id: IdView, score: u32) -> Map<
    IdView,
    u32,
> {
    if k == 0 {
        kept
    } else if kept.dom().contains(id) || kept.dom().len() < k {
        kept.insert(id, score)
    } else if vector::beats(score, kept[lowest(kept)]) {
        let more = kept.insert(id, score);
        more.remove(lowest(more))
    } else {
        kept
    }
}

/// The best documents seen so far, at most `k`.
#[derive(Clone, Debug)]
pub struct TopKTracker {
    k: usize,
    by_id: SortedMap<Id, u32>,
    by_score: SortedSet<ScoredId>,
}

impl TopKTracker {
    /// Which documents are kept, with their scores.
    pub closed spec fn kept(self) -> Map<IdView, u32> {
        self.by_id.map()
    }

    /// How many documents are kept at most.
    pub closed spec fn limit(self) -> nat {
        self.k as nat
    }

    /// Both collections hold the same documents with the same scores.
    spec fn agree(self) -> bool {
        &&& self.by_id.wf()
        &&& self.by_score.wf()
        &&& self.by_score.items().len() == self.by_id.keys().len()
        &&& forall|s: u32, id: IdView| #[trigger]
            self.by_score.set().contains((s, id)) <==> self.by_id.map().dom().contains(id)
                && self.by_id.map()[id] == s
    }

    /// Both collections agree, and hold at most `k` documents.
    pub closed spec fn wf(self) -> bool {
        self.agree() && self.by_id.keys().len() <= self.k
    }

    pub fn new(k: usize) -> (t: TopKTracker)
        ensures
            t.wf(),
            t.limit() == k,
            t.kept() == Map::<IdView, u32>::empty(),
    {
        let t = TopKTracker { k, by_id: SortedMap::new(), by_score: SortedSet::new() };
        assert(t.agree());
        t
    }

    /// The first in the order of the scores is the lowest.
    proof fn lemma_first(self)
        requires
            self.agree(),
            self.by_id.keys().len() > 0,
        ensures
            is_lowest(self.kept(), self.by_score.items()[0].1),
            self.kept()[self.by_score.items()[0].1] == self.by_score.items()[0].0,
            lowest(self.kept()) == self.by_score.items()[0].1,
    {
        let items = self.by_score.items();
        let (s, id) = items[0];
        self.by_score.lemma_sorted();
        assert(self.by_score.set().contains((s, id))) by {
            assert(items.contains(items[0]));
        }
        assert forall|other: IdView|
            self.kept().dom().contains(other) && other != id implies scored_order(
            (self.kept()[id], id),
            (#[trigger] self.kept()[other], other),
        ) == Order::Less by {
            let x = (self.kept()[other], other);
            assert(self.by_score.set().contains((x.0, x.1)));
            let j = items.index_of(x);
            assert(items[j] == x);
            assert(j != 0);
            assert(sorted::key_lt::<ScoredId>(items[0], items[j]));
            assert(<ScoredId as Key>::order(items[0], items[j]) == scored_order(
                items[0],
                items[j],
            ));
        }
        lemma_lowest_is_one(self.kept(), id);
    }

    /// The score that a new document has to beat; none as long as there is room.
    pub fn threshold(&self) -> (r: Option<u32>)
        requires
            self.wf(),
        ensures
            r == threshold_of(self.kept(), self.limit()),
    {
        proof {
            self.by_id.lemma_count();
        }
        if self.by_id.len() < self.k || self.by_score.len() == 0 {
            return None;
        }
        proof {
            self.lemma_first();
        }
        Some(self.by_score.item_at(0).score)
    }

    fn insert(&mut self, id: Id, score: u32)
        requires
            old(self).agree(),
            !old(self).kept().dom().contains(id@),
        ensures
            final(self).agree(),
            final(self).k == old(self).k,
            final(self).by_id.keys().len() == old(self).by_id.keys().len() + 1,
            final(self).kept() == old(self).kept().insert(id@, score),
    {
        let ghost before = *self;
        let ghost key = id@;
        self.by_id.insert(copy_id(&id), score);
        let fresh = self.by_score.insert(ScoredId { score, id });
        proof {
            if !fresh {
                assert(before.by_score.set().contains((score, key)));
            }
            assert forall|s: u32, x: IdView| #[trigger]
                self.by_score.set().contains((s, x)) <==> self.by_id.map().dom().contains(x)
                    && self.by_id.map()[x] == s by {
                assert(before.by_score.set().contains((s, x)) <==> before.by_id.map().dom().contains(
                    x,
                ) && before.by_id.map()[x] == s);
            }
        }
    }

    fn trim(&mut self)
        requires
            old(self).agree(),
            0 < old(self).by_id.keys().len() <= old(self).k + 1,
        ensures
            final(self).wf(),
            final(self).k == old(self).k,
            old(self).by_id.keys().len() <= old(self).k ==> final(self).kept() == old(
                self,
            ).kept(),
            old(self).by_id.keys().len() == old(self).k + 1 ==> final(self).kept() == old(
                self,
            ).kept().remove(lowest(old(self).kept())),
    {
        if self.by_id.len() > self.k {
            proof {
                self.lemma_first();
            }
            let ghost before = *self;
            let first = self.by_score.item_at(0);
            let entry = ScoredId { score: first.score, id: copy_id(&first.id) };
            let there = self.by_score.remove(&entry);
            let gone = self.by_id.remove(&entry.id);
            proof {
                assert(before.by_score.set().contains((entry.score, entry.id@))) by {
                    assert(before.by_score.items().contains(before.by_score.items()[0]));
                }
                assert(there);
                assert(gone is Some);
                assert forall|s: u32, x: IdView| #[trigger]
                    self.by_score.set().contains((s, x)) <==> self.by_id.map().dom().contains(x)
                        && self.by_id.map()[x] == s by {
                    assert(before.by_score.set().contains((s, x))
                        <==> before.by_id.map().dom().contains(x) && before.by_id.map()[x] == s);
                }
            }
        }
    }

    /// Takes in the score that a document has now.
    pub fn observe(&mut self, id: Id, score: u32)
        requires
            old(self).wf(),
        ensures
            final(self).wf(),
            final(self).limit() == old(self).limit(),
            final(self).kept() == after_observing(old(self).kept(), old(self).limit(), id@, score),
    {
        if self.k == 0 {
            return;
        }
        let ghost before = *self;
        let ghost key = id@;
        proof {
            self.by_id.lemma_count();
        }
        if let Some(previous) = self.by_id.remove(&id) {
            let there = self.by_score.remove(&ScoredId { score: previous, id: copy_id(&id) });
            proof {
                assert(before.by_score.set().contains((previous, key)));
                assert forall|s: u32, x: IdView| #[trigger]
                    self.by_score.set().contains((s, x)) <==> self.by_id.map().dom().contains(x)
                        && self.by_id.map()[x] == s by {
                    assert(before.by_score.set().contains((s, x))
                        <==> before.by_id.map().dom().contains(x) && before.by_id.map()[x] == s);
                }
            }
            self.insert(id, score);
            assert(self.kept() =~= before.kept().insert(key, score));
            return;
        }
        assert(self.by_id.map() =~= before.by_id.map());
        assert(self.agree()) by {
            assert forall|s: u32, x: IdView| #[trigger]
                self.by_score.set().contains((s, x)) <==> self.by_id.map().dom().contains(x)
                    && self.by_id.map()[x] == s by {
                assert(before.by_score.set().contains((s, x)) <==> before.by_id.map().dom().contains(
                    x,
                ) && before.by_id.map()[x] == s);
            }
        }
        if self.by_id.len() < self.k {
            self.insert(id, score);
            return;
        }
        proof {
            self.lemma_first();
        }
        let low: u32 = self.by_score.item_at(0).score;
        if score_beats(score, low) {
            self.insert(id, score);
            self.trim();
        }
    }
}

/// There is one lowest document.
pub proof fn lemma_lowest_is_one(kept: Map<IdView, u32>, id: IdView)
    requires
        is_lowest(kept, id),
    ensures
        lowest(kept) == id,
{
    let other = lowest(kept);
    if other != id {
        assert(kept[other] == kept[other] && kept[id] == kept[id]);
        assert(scored_order((kept[id], id), (kept[other], other)) == Order::Less);
        assert(scored_order((kept[other], other), (kept[id], id)) == Order::Less);
        value::lemma_ids_total(id, other);
    }
}

/// Of the best documents so far, one with a higher score than the lowest takes its place,
/// and one without leaves them as they are: what stays has no lower score than what goes.
/// While there is room every document stays.
pub proof fn law_lowest_gives_way(
    kept: Map<IdView, u32>,
    k: nat,
    id: IdView,
    score: u32,
    lowest_id: IdView,
)
    requires
        k > 0,
        !kept.dom().contains(id),
        is_lowest(kept, lowest_id),
        kept.dom().finite(),
        rounding::is_number(score),
        forall|other: IdView| #[trigger]
            kept.dom().contains(other) ==> rounding::is_number(kept[other]),
    ensures
        ({
            let after = after_observing(kept, k, id, score);
            let bar = rounding::number(kept[lowest_id]);
            &&& kept.dom().len() < k ==> after == kept.insert(id, score)
            &&& kept.dom().len() >= k && rounding::number(score) <= bar ==> after == kept
            &&& kept.dom().len() >= k && rounding::number(score) > bar ==> after == kept.remove(
                lowest_id,
            ).insert(id, score)
            &&& forall|other: IdView| #[trigger]
                kept.dom().contains(other) ==> rounding::number(kept[other]) >= bar
        }),
{
    lemma_lowest_is_one(kept, lowest_id);
    assert(rounding::is_number(kept[lowest_id]));
    rounding::law_higher_score_is_higher_number(score, kept[lowest_id]);
    let more = kept.insert(id, score);
    assert forall|other: IdView| #[trigger] kept.dom().contains(other) implies rounding::number(
        kept[other],
    ) >= rounding::number(kept[lowest_id]) by {
        if other != lowest_id {
            assert(scored_order((kept[lowest_id], lowest_id), (kept[other], other)) == Order::Less);
            rounding::lemma_places(kept[other], kept[lowest_id]);
        }
    }
    if kept.dom().len() >= k && rounding::number(score) > rounding::number(kept[lowest_id]) {
        rounding::lemma_places(kept[lowest_id], score);
        assert(is_lowest(more, lowest_id)) by {
            assert forall|other: IdView|
                more.dom().contains(other) && other != lowest_id implies scored_order(
                (more[lowest_id], lowest_id),
                (#[trigger] more[other], other),
            ) == Order::Less by {
                if other != id {
                    assert(kept[other] == more[other]);
                }
            }
        }
        lemma_lowest_is_one(more, lowest_id);
        assert(more.remove(lowest_id) =~= kept.remove(lowest_id).insert(id, score));
    }
}

/// The score to beat is there once as many documents are kept as asked for, and is no higher
/// than that of any of them.
pub proof fn law_score_to_beat_is_the_lowest(
    kept: Map<IdView, u32>,
    k: nat,
    lowest_id: IdView,
    other: IdView,
)
    requires
        k > 0,
        is_lowest(kept, lowest_id),
        kept.dom().finite(),
        kept.dom().contains(other),
        rounding::is_number(kept[lowest_id]),
        rounding::is_number(kept[other]),
    ensures
        threshold_of(kept, k) is Some <==> kept.dom().len() >= k,
        threshold_of(kept, k) matches Some(t) ==> t == kept[lowest_id] && rounding::number(t)
            <= rounding::number(kept[other]),
{
    lemma_lowest_is_one(kept, lowest_id);
    if kept.dom().len() >= k && other != lowest_id {
        assert(scored_order((kept[lowest_id], lowest_id), (kept[other], other)) == Order::Less);
        rounding::lemma_places(kept[other], kept[lowest_id]);
    }
}

} // verus!
