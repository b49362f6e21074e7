//! Sorting by a given order.

use vstd::prelude::*;
use vstd::multiset::Multiset;

use crate::seqs;

verus! {

/// A comparison of the values of a type: of any two it says which may stand first.
pub trait Comparison<T> {
    /// A value that can be compared.
    spec fn ranks(&self, a: T) -> bool;

    /// `a` may stand before `b`.
    spec fn precedes(&self, a: T, b: T) -> bool;

    /// Of two values one may stand before the other.
    proof fn lemma_total(&self, a: T, b: T)
        ensures
            self.precedes(a, b) || self.precedes(b, a),
    ;

    /// Whether `a` may stand before `b`.
    fn in_order(&self, a: &T, b: &T) -> (r: bool)
        requires
            self.ranks(*a),
            self.ranks(*b),
        ensures
            r == self.precedes(*a, *b),
    ;
}

/// A comparison that orders all values of the type.
pub trait Ranking<T>: Comparison<T> {
    proof fn lemma_transitive(&self, a: T, b: T, c: T)
        requires
            self.precedes(a, b),
            self.precedes(b, c),
        ensures
            self.precedes(a, c),
    ;
}

/// Every item may stand before those behind it.
pub open spec fn is_sorted<T, R: Comparison<T>>(s: Seq<T>, ranking: R) -> bool {
    forall|i: int, j: int|
        0 <= i < j < s.len() ==> ranking.precedes(#[trigger] s[i], #[trigger] s[j])
}

/// The comparison orders these items: what may stand before an item may stand before
/// all that this one may stand before.
pub open spec fn is_consistent<T, R: Comparison<T>>(s: Seq<T>, ranking: R) -> bool {
    forall|a: T, b: T, c: T|
        s.contains(a) && s.contains(b) && s.contains(c) && #[trigger] ranking.precedes(a, b)
            && #[trigger] ranking.precedes(b, c) ==> ranking.precedes(a, c)
}

/// The items are in order, where the comparison orders them at all.
pub open spec fn is_arranged<T, R: Comparison<T>>(s: Seq<T>, ranking: R) -> bool {
    is_consistent(s, ranking) ==> is_sorted(s, ranking)
}

/// An item that may stand on either side of another.
pub open spec fn tied<T, R: Comparison<T>>(ranking: R, a: T) -> spec_fn(T) -> bool {
    |x: T| ranking.precedes(a, x) && ranking.precedes(x, a)
}

/// Items that may stand on either side of each other stay in the order in which they
/// were.
pub open spec fn keeps_ties<T, R: Comparison<T>>(from: Seq<T>, to: Seq<T>, ranking: R) -> bool {
    forall|a: T|
        from.contains(a) ==> seqs::kept(from, #[trigger] tied(ranking, a)) == seqs::kept(
            to,
            tied(ranking, a),
        )
}

/// The same items, in order where the comparison orders them; those that may stand on
/// either side of each other as they were.
pub open spec fn is_arrangement<T, R: Comparison<T>>(from: Seq<T>, to: Seq<T>, ranking: R) -> bool {
    &&& to.to_multiset() == from.to_multiset()
    &&& is_consistent(to, ranking) ==> is_sorted(to, ranking) && keeps_ties(from, to, ranking)
}

/// Every item can be compared.
pub open spec fn all_rank<T, R: Comparison<T>>(s: Seq<T>, ranking: R) -> bool {
    forall|i: int| 0 <= i < s.len() ==> ranking.ranks(#[trigger] s[i])
}

/// Every item may stand before `x`.
spec fn all_precede<T, R: Comparison<T>>(s: Seq<T>, x: T, ranking: R) -> bool {
    forall|i: int| 0 <= i < s.len() ==> ranking.precedes(#[trigger] s[i], x)
}

proof fn lemma_pop<T>(s: Seq<T>)
    requires
        s.len() > 0,
    ensures
        s.to_multiset() == s.drop_last().to_multiset().insert(s.last()),
{
    assert(s.drop_last().push(s.last()) =~= s);
    broadcast use vstd::seq_lib::group_to_multiset_ensures;
}

/// The items in the opposite order.
pub fn reversed<T>(items: Vec<T>) -> (out: Vec<T>)
    ensures
        out@ == items@.reverse(),
{
    let mut items = items;
    let ghost all = items@;
    let mut out: Vec<T> = Vec::new();
    while items.len() > 0
        invariant
            items@.len() + out@.len() == all.len(),
            items@ == all.take(items@.len() as int),
            forall|i: int| 0 <= i < out@.len() ==> #[trigger] out@[i] == all[all.len() - 1 - i],
        decreases items@.len(),
    {
        let ghost n = items@.len() as int;
        assert(items@[n - 1] == all[n - 1]);
        if let Some(item) = items.pop() {
            out.push(item);
        }
        assert(items@ =~= all.take(n - 1));
    }
    assert(out@ =~= all.reverse());
    out
}

/// The items are among some others.
spec fn within<T>(s: Seq<T>, all: Seq<T>) -> bool {
    forall|i: int| 0 <= i < s.len() ==> all.contains(#[trigger] s[i])
}

proof fn lemma_consistent_within<T, R: Comparison<T>>(s: Seq<T>, all: Seq<T>, ranking: R)
    requires
        within(s, all),
        is_consistent(all, ranking),
    ensures
        is_consistent(s, ranking),
{
    assert forall|a: T, b: T, c: T|
        s.contains(a) && s.contains(b) && s.contains(c) && #[trigger] ranking.precedes(a, b)
            && #[trigger] ranking.precedes(b, c) implies ranking.precedes(a, c) by {
        assert(all.contains(s[s.index_of(a)]));
        assert(all.contains(s[s.index_of(b)]));
        assert(all.contains(s[s.index_of(c)]));
    }
}

proof fn lemma_same_items<T>(a: Seq<T>, b: Seq<T>)
    requires
        a.to_multiset() == b.to_multiset(),
    ensures
        within(a, b),
{
    broadcast use vstd::seq_lib::group_to_multiset_ensures;

    assert forall|i: int| 0 <= i < a.len() implies b.contains(#[trigger] a[i]) by {
        assert(a.contains(a[i]));
        assert(a.to_multiset().count(a[i]) > 0);
    }
}

/// What merging has put aside so far, in descending order, with what is left to
/// merge.
spec fn merging<T, R: Comparison<T>>(left: Seq<T>, right: Seq<T>, down: Seq<T>, ranking: R) -> bool {
    &&& is_sorted(left, ranking)
    &&& is_sorted(right, ranking)
    &&& forall|i: int, j: int|
        0 <= i < j < down.len() ==> ranking.precedes(#[trigger] down[j], #[trigger] down[i])
    &&& forall|i: int| 0 <= i < down.len() ==> all_precede(left, #[trigger] down[i], ranking)
    &&& forall|i: int| 0 <= i < down.len() ==> all_precede(right, #[trigger] down[i], ranking)
}

proof fn lemma_merge_step<T, R: Comparison<T>>(
    from: Seq<T>,
    other: Seq<T>,
    down: Seq<T>,
    all: Seq<T>,
    ranking: R,
)
    requires
        merging(from, other, down, ranking),
        within(from, all),
        within(other, all),
        is_consistent(all, ranking),
        from.len() > 0,
        other.len() > 0 ==> ranking.precedes(other.last(), from.last()),
    ensures
        merging(from.drop_last(), other, down.push(from.last()), ranking),
{
    let x = from.last();
    let rest = from.drop_last();
    let next = down.push(x);
    assert(from[from.len() - 1] == x);
    assert forall|i: int, j: int| 0 <= i < j < rest.len() implies ranking.precedes(
        #[trigger] rest[i],
        #[trigger] rest[j],
    ) by {
        assert(rest[i] == from[i] && rest[j] == from[j]);
    }
    assert forall|i: int, j: int| 0 <= i < j < next.len() implies ranking.precedes(
        #[trigger] next[j],
        #[trigger] next[i],
    ) by {
        assert(next[i] == down[i]);
        if j == down.len() {
            assert(all_precede(from, down[i], ranking));
            assert(ranking.precedes(from[from.len() - 1], down[i]));
        } else {
            assert(next[j] == down[j]);
        }
    }
    assert forall|i: int| 0 <= i < next.len() implies all_precede(
        rest,
        #[trigger] next[i],
        ranking,
    ) by {
        assert forall|k: int| 0 <= k < rest.len() implies ranking.precedes(
            #[trigger] rest[k],
            next[i],
        ) by {
            assert(rest[k] == from[k]);
            if i < down.len() {
                assert(next[i] == down[i]);
                assert(all_precede(from, down[i], ranking));
            } else {
                assert(ranking.precedes(from[k], from[from.len() - 1]));
            }
        }
    }
    assert forall|i: int| 0 <= i < next.len() implies all_precede(
        other,
        #[trigger] next[i],
        ranking,
    ) by {
        assert forall|k: int| 0 <= k < other.len() implies ranking.precedes(
            #[trigger] other[k],
            next[i],
        ) by {
            if i < down.len() {
                assert(next[i] == down[i]);
                assert(all_precede(other, down[i], ranking));
            } else if k < other.len() - 1 {
                assert(ranking.precedes(other[k], other[other.len() - 1]));
                assert(all.contains(other[k]));
                assert(all.contains(other[other.len() - 1]));
                assert(all.contains(from[from.len() - 1]));
            }
        }
    }
}

proof fn lemma_within_rest<T, R: Comparison<T>>(s: Seq<T>, all: Seq<T>, ranking: R)
    requires
        s.len() > 0,
        within(s, all),
        all_rank(s, ranking),
    ensures
        within(s.drop_last(), all),
        all_rank(s.drop_last(), ranking),
        ranking.ranks(s.last()),
{
    let rest = s.drop_last();
    assert(s[s.len() - 1] == s.last());
    assert forall|i: int| 0 <= i < rest.len() implies all.contains(#[trigger] rest[i])
        && ranking.ranks(rest[i]) by {
        assert(rest[i] == s[i]);
    }
}

/// What merging keeps of the items that are tied with one: those on the left, then
/// those on the right, then those that were put aside.
spec fn ties_kept<T, R: Comparison<T>>(
    left: Seq<T>,
    right: Seq<T>,
    down: Seq<T>,
    all: Seq<T>,
    ranking: R,
) -> bool {
    forall|a: T|
        all.contains(a) ==> seqs::kept(all, #[trigger] tied(ranking, a)) == seqs::kept(
            left,
            tied(ranking, a),
        ) + seqs::kept(right, tied(ranking, a)) + seqs::kept(down.reverse(), tied(ranking, a))
}

proof fn lemma_put_aside<T>(from: Seq<T>, down: Seq<T>, p: spec_fn(T) -> bool)
    requires
        from.len() > 0,
    ensures
        seqs::kept(from.drop_last(), p) + seqs::kept(down.push(from.last()).reverse(), p)
            == seqs::kept(from, p) + seqs::kept(down.reverse(), p),
        seqs::kept(down.push(from.last()).reverse(), p) == (if p(from.last()) {
            seq![from.last()]
        } else {
            Seq::empty()
        }) + seqs::kept(down.reverse(), p),
{
    let x = from.last();
    let one = seq![x];
    assert(down.push(x).reverse() =~= one + down.reverse());
    seqs::lemma_kept_concat(one, down.reverse(), p);
    assert(one.drop_last() =~= Seq::empty());
    assert(one.last() == x);
    assert(seqs::kept(one.drop_last(), p) =~= Seq::empty());
    assert(seqs::kept(one, p) =~= (if p(x) {
        one
    } else {
        Seq::empty()
    }));
    assert(seqs::kept(from.drop_last(), p) + (one + seqs::kept(down.reverse(), p)) =~= seqs::kept(
        from.drop_last(),
        p,
    ).push(x) + seqs::kept(down.reverse(), p));
    assert(seqs::kept(from.drop_last(), p) + seqs::kept(down.push(x).reverse(), p) =~= seqs::kept(
        from,
        p,
    ) + seqs::kept(down.reverse(), p));
}

proof fn lemma_ties_from_right<T, R: Comparison<T>>(
    left: Seq<T>,
    right: Seq<T>,
    down: Seq<T>,
    all: Seq<T>,
    ranking: R,
)
    requires
        ties_kept(left, right, down, all, ranking),
        right.len() > 0,
    ensures
        ties_kept(left, right.drop_last(), down.push(right.last()), all, ranking),
{
    assert forall|a: T| all.contains(a) implies seqs::kept(all, #[trigger] tied(ranking, a))
        == seqs::kept(left, tied(ranking, a)) + seqs::kept(right.drop_last(), tied(ranking, a))
        + seqs::kept(down.push(right.last()).reverse(), tied(ranking, a)) by {
        let p = tied(ranking, a);
        lemma_put_aside(right, down, p);
        let l = seqs::kept(left, p);
        assert(l + seqs::kept(right.drop_last(), p) + seqs::kept(
            down.push(right.last()).reverse(),
            p,
        ) =~= l + (seqs::kept(right.drop_last(), p) + seqs::kept(
            down.push(right.last()).reverse(),
            p,
        )));
        assert(l + seqs::kept(right, p) + seqs::kept(down.reverse(), p) =~= l + (seqs::kept(
            right,
            p,
        ) + seqs::kept(down.reverse(), p)));
    }
}

proof fn lemma_ties_from_left<T, R: Comparison<T>>(
    left: Seq<T>,
    right: Seq<T>,
    down: Seq<T>,
    all: Seq<T>,
    ranking: R,
)
    requires
        ties_kept(left, right, down, all, ranking),
        is_sorted(right, ranking),
        is_consistent(all, ranking),
        within(left, all),
        within(right, all),
        left.len() > 0,
        right.len() > 0 ==> !ranking.precedes(left.last(), right.last()),
    ensures
        ties_kept(left.drop_last(), right, down.push(left.last()), all, ranking),
{
    let x = left.last();
    assert(all.contains(left[left.len() - 1]));
    assert forall|a: T| all.contains(a) implies seqs::kept(all, #[trigger] tied(ranking, a))
        == seqs::kept(left.drop_last(), tied(ranking, a)) + seqs::kept(right, tied(ranking, a))
        + seqs::kept(down.push(x).reverse(), tied(ranking, a)) by {
        let p = tied(ranking, a);
        lemma_put_aside(left, down, p);
        let l = seqs::kept(left.drop_last(), p);
        let r = seqs::kept(right, p);
        let d = seqs::kept(down.reverse(), p);
        if p(x) {
            assert(r =~= Seq::empty()) by {
                if r.len() > 0 {
                    seqs::lemma_kept_from(right, p, 0);
                    let i = right.index_of(r[0]);
                    assert(all.contains(right[i]));
                    assert(all.contains(right[right.len() - 1]));
                    assert(ranking.precedes(x, a) && ranking.precedes(a, right[i]));
                    assert(ranking.precedes(x, right[i]));
                    if i < right.len() - 1 {
                        assert(ranking.precedes(right[i], right[right.len() - 1]));
                    }
                    assert(ranking.precedes(x, right.last()));
                }
            }
            assert(l + r + seqs::kept(down.push(x).reverse(), p) =~= l + seqs::kept(
                down.push(x).reverse(),
                p,
            ));
            assert(seqs::kept(left, p) + r + d =~= seqs::kept(left, p) + d);
        } else {
            assert(seqs::kept(down.push(x).reverse(), p) =~= d);
        }
    }
}

/// Two lists as one, in order where both are.
fn merge<T, R: Comparison<T>>(left: Vec<T>, right: Vec<T>, ranking: &R) -> (out: Vec<T>)
    requires
        all_rank(left@, *ranking),
        all_rank(right@, *ranking),
    ensures
        is_sorted(left@, *ranking) && is_sorted(right@, *ranking) && is_consistent(
            left@ + right@,
            *ranking,
        ) ==> is_sorted(out@, *ranking) && keeps_ties(left@ + right@, out@, *ranking),
        all_rank(out@, *ranking),
        out@.to_multiset() == left@.to_multiset().add(right@.to_multiset()),
{
    let ghost all = left@ + right@;
    let ghost good = is_sorted(left@, *ranking) && is_sorted(right@, *ranking) && is_consistent(
        all,
        *ranking,
    );
    let mut left = left;
    let mut right = right;
    let mut down: Vec<T> = Vec::new();
    let ghost total = left@.to_multiset().add(right@.to_multiset());
    proof {
        broadcast use vstd::seq_lib::group_to_multiset_ensures;

        assert(down@.to_multiset() =~= Multiset::empty());
        assert(total =~= left@.to_multiset().add(right@.to_multiset()).add(down@.to_multiset()));
        assert forall|i: int| 0 <= i < left@.len() implies all.contains(#[trigger] left@[i]) by {
            assert(all[i] == left@[i]);
        }
        assert forall|i: int| 0 <= i < right@.len() implies all.contains(#[trigger] right@[i]) by {
            assert(all[left@.len() + i] == right@[i]);
        }
        assert forall|a: T| all.contains(a) implies seqs::kept(all, #[trigger] tied(*ranking, a))
            == seqs::kept(left@, tied(*ranking, a)) + seqs::kept(right@, tied(*ranking, a))
            + seqs::kept(down@.reverse(), tied(*ranking, a)) by {
            let p = tied(*ranking, a);
            seqs::lemma_kept_concat(left@, right@, p);
            assert(down@.reverse() =~= Seq::empty());
            assert(seqs::kept(left@, p) + seqs::kept(right@, p) + seqs::kept(down@.reverse(), p)
                =~= seqs::kept(left@, p) + seqs::kept(right@, p));
        }
    }
    while left.len() > 0 || right.len() > 0
        invariant
            within(left@, all),
            within(right@, all),
            all_rank(left@, *ranking),
            all_rank(right@, *ranking),
            all_rank(down@, *ranking),
            good ==> is_consistent(all, *ranking) && merging(left@, right@, down@, *ranking)
                && ties_kept(left@, right@, down@, all, *ranking),
            total == left@.to_multiset().add(right@.to_multiset()).add(down@.to_multiset()),
        decreases left@.len() + right@.len(),
    {
        let ghost l = left@;
        let ghost r = right@;
        let ghost d = down@;
        proof {
            broadcast use vstd::seq_lib::group_to_multiset_ensures;

        }
        let take_left: bool = if right.len() == 0 {
            true
        } else if left.len() == 0 {
            false
        } else {
            !ranking.in_order(&left[left.len() - 1], &right[right.len() - 1])
        };
        if take_left {
            proof {
                if r.len() > 0 {
                    ranking.lemma_total(l.last(), r.last());
                }
                if good {
                    lemma_merge_step(l, r, d, all, *ranking);
                    lemma_ties_from_left(l, r, d, all, *ranking);
                }
                lemma_within_rest(l, all, *ranking);
                lemma_pop(l);
            }
            if let Some(item) = left.pop() {
                down.push(item);
            }
            assert(total =~= left@.to_multiset().add(right@.to_multiset()).add(down@.to_multiset()));
        } else {
            proof {
                if good {
                    assert(merging(r, l, d, *ranking));
                    lemma_merge_step(r, l, d, all, *ranking);
                    lemma_ties_from_right(l, r, d, all, *ranking);
                }
                lemma_within_rest(r, all, *ranking);
                lemma_pop(r);
            }
            if let Some(item) = right.pop() {
                down.push(item);
            }
            assert(total =~= left@.to_multiset().add(right@.to_multiset()).add(down@.to_multiset()));
        }
    }
    let ghost d = down@;
    proof {
        broadcast use vstd::seq_lib::group_to_multiset_ensures;

        assert(left@ =~= Seq::empty() && right@ =~= Seq::empty());
        assert(left@.to_multiset() =~= Multiset::empty());
        assert(right@.to_multiset() =~= Multiset::empty());
        assert(total =~= d.to_multiset());
        d.lemma_reverse_to_multiset();
    }
    let out = reversed(down);
    proof {
        if good {
            assert forall|i: int, j: int| 0 <= i < j < out@.len() implies ranking.precedes(
                #[trigger] out@[i],
                #[trigger] out@[j],
            ) by {
                let n = d.len() as int;
                assert(out@[i] == d[n - 1 - i]);
                assert(out@[j] == d[n - 1 - j]);
            }
            assert forall|a: T| all.contains(a) implies seqs::kept(
                all,
                #[trigger] tied(*ranking, a),
            ) == seqs::kept(out@, tied(*ranking, a)) by {
                let p = tied(*ranking, a);
                assert(seqs::kept(left@, p) + seqs::kept(right@, p) + seqs::kept(out@, p)
                    =~= seqs::kept(out@, p));
            }
        }
        assert forall|i: int| 0 <= i < out@.len() implies ranking.ranks(#[trigger] out@[i]) by {
            assert(out@[i] == d[d.len() - 1 - i]);
        }
    }
    out
}

/// Sorting a part keeps the order of what is tied with any item of the whole.
proof fn lemma_part_keeps_ties<T, R: Comparison<T>>(
    from: Seq<T>,
    to: Seq<T>,
    a: T,
    all: Seq<T>,
    ranking: R,
)
    requires
        keeps_ties(from, to, ranking),
        from.to_multiset() == to.to_multiset(),
        is_consistent(all, ranking),
        within(to, all),
        all.contains(a),
    ensures
        seqs::kept(from, tied(ranking, a)) == seqs::kept(to, tied(ranking, a)),
{
    let p = tied(ranking, a);
    lemma_same_items(from, to);
    lemma_same_items(to, from);
    if exists|b: T| from.contains(b) && p(b) {
        let b = choose|b: T| from.contains(b) && p(b);
        let q = tied(ranking, b);
        assert(to.contains(from[from.index_of(b)]));
        assert(all.contains(to[to.index_of(b)]));
        assert forall|x: T| #[trigger] all.contains(x) implies p(x) == q(x) by {
        }
        assert forall|x: T| #[trigger] from.contains(x) implies p(x) == q(x) by {
            assert(to.contains(from[from.index_of(x)]));
            assert(all.contains(to[to.index_of(x)]));
        }
        assert forall|x: T| #[trigger] to.contains(x) implies p(x) == q(x) by {
            assert(all.contains(to[to.index_of(x)]));
        }
        lemma_kept_alike(from, p, q);
        lemma_kept_alike(to, p, q);
        assert(seqs::kept(from, q) == seqs::kept(to, q));
    } else {
        assert(seqs::kept(from, p) =~= Seq::empty()) by {
            if seqs::kept(from, p).len() > 0 {
                seqs::lemma_kept_from(from, p, 0);
            }
        }
        assert(seqs::kept(to, p) =~= Seq::empty()) by {
            if seqs::kept(to, p).len() > 0 {
                seqs::lemma_kept_from(to, p, 0);
                let x = seqs::kept(to, p)[0];
                assert(from.contains(to[to.index_of(x)]));
            }
        }
    }
}

proof fn lemma_kept_alike<T>(s: Seq<T>, p: spec_fn(T) -> bool, q: spec_fn(T) -> bool)
    requires
        forall|x: T| #[trigger] s.contains(x) ==> p(x) == q(x),
    ensures
        seqs::kept(s, p) == seqs::kept(s, q),
    decreases s.len(),
{
    if s.len() > 0 {
        let rest = s.drop_last();
        assert forall|x: T| #[trigger] rest.contains(x) implies p(x) == q(x) by {
            let k = rest.index_of(x);
            assert(rest[k] == x && s[k] == x);
            assert(s.contains(x));
        }
        lemma_kept_alike(rest, p, q);
        assert(s.contains(s[s.len() - 1]));
    }
}

/// The same items, in order where the comparison orders them.
pub fn arrange<T, R: Comparison<T>>(items: Vec<T>, ranking: &R) -> (out: Vec<T>)
    requires
        all_rank(items@, *ranking),
    ensures
        is_arrangement(items@, out@, *ranking),
        is_arranged(out@, *ranking),
        all_rank(out@, *ranking),
        out@.to_multiset() == items@.to_multiset(),
        out@.len() == items@.len(),
    decreases items@.len(),
{
    let mut left = items;
    let ghost all = left@;
    let n = left.len();
    if n < 2 {
        return left;
    }
    let mid = n / 2;
    let right = left.split_off(mid);
    let ghost front = left@;
    let ghost back = right@;
    proof {
        assert(left@ =~= all.subrange(0, mid as int));
        assert(right@ =~= all.subrange(mid as int, n as int));
        assert forall|i: int| 0 <= i < left@.len() implies ranking.ranks(#[trigger] left@[i]) by {
            assert(left@[i] == all[i]);
        }
        assert forall|i: int| 0 <= i < right@.len() implies ranking.ranks(#[trigger] right@[i]) by {
            assert(right@[i] == all[mid + i]);
        }
        assert(all =~= left@ + right@);
        vstd::seq_lib::lemma_multiset_commutative(left@, right@);
    }
    let left = arrange(left, ranking);
    let right = arrange(right, ranking);
    let ghost l = left@;
    let ghost r = right@;
    let out = merge(left, right, ranking);
    proof {
        broadcast use vstd::seq_lib::group_to_multiset_ensures;

        assert(out@.len() == out@.to_multiset().len());
        assert(all.len() == all.to_multiset().len());
        if is_consistent(out@, *ranking) {
            lemma_same_items(all, out@);
            lemma_same_items(l, front);
            lemma_same_items(r, back);
            assert(within(l, out@)) by {
                assert forall|i: int| 0 <= i < l.len() implies out@.contains(#[trigger] l[i]) by {
                    let k = front.index_of(l[i]);
                    assert(front.contains(l[i]));
                    assert(all[k] == l[i]);
                }
            }
            assert(within(r, out@)) by {
                assert forall|i: int| 0 <= i < r.len() implies out@.contains(#[trigger] r[i]) by {
                    let k = back.index_of(r[i]);
                    assert(back.contains(r[i]));
                    assert(all[mid + k] == r[i]);
                }
            }
            assert(within(l + r, out@)) by {
                assert forall|i: int| 0 <= i < (l + r).len() implies out@.contains(
                    #[trigger] (l + r)[i],
                ) by {
                    if i < l.len() {
                        assert((l + r)[i] == l[i]);
                    } else {
                        assert((l + r)[i] == r[i - l.len()]);
                    }
                }
            }
            lemma_consistent_within(l, out@, *ranking);
            lemma_consistent_within(r, out@, *ranking);
            lemma_consistent_within(l + r, out@, *ranking);
            assert forall|a: T| all.contains(a) implies seqs::kept(
                all,
                #[trigger] tied(*ranking, a),
            ) == seqs::kept(out@, tied(*ranking, a)) by {
                let p = tied(*ranking, a);
                lemma_part_keeps_ties(front, l, a, out@, *ranking);
                lemma_part_keeps_ties(back, r, a, out@, *ranking);
                seqs::lemma_kept_concat(front, back, p);
                seqs::lemma_kept_concat(l, r, p);
                assert((l + r).contains(a)) by {
                    lemma_same_items(all, out@);
                    lemma_same_items(front, l);
                    lemma_same_items(back, r);
                    let k = all.index_of(a);
                    if k < mid {
                        assert(front[k] == a);
                        let j = l.index_of(a);
                        assert((l + r)[j] == a);
                    } else {
                        assert(back[k - mid] == a);
                        let j = r.index_of(a);
                        assert((l + r)[l.len() + j] == a);
                    }
                }
            }
        }
    }
    out
}

/// A ranking orders any items.
pub proof fn lemma_ranking_is_consistent<T, R: Ranking<T>>(s: Seq<T>, ranking: R)
    ensures
        is_consistent(s, ranking),
{
    assert forall|a: T, b: T, c: T|
        s.contains(a) && s.contains(b) && s.contains(c) && #[trigger] ranking.precedes(a, b)
            && #[trigger] ranking.precedes(b, c) implies ranking.precedes(a, c) by {
        ranking.lemma_transitive(a, b, c);
    }
}

/// The same items in order.
pub fn sort<T, R: Ranking<T>>(items: Vec<T>, ranking: &R) -> (out: Vec<T>)
    requires
        all_rank(items@, *ranking),
    ensures
        is_sorted(out@, *ranking),
        keeps_ties(items@, out@, *ranking),
        all_rank(out@, *ranking),
        out@.to_multiset() == items@.to_multiset(),
        out@.len() == items@.len(),
{
    let out = arrange(items, ranking);
    proof {
        lemma_ranking_is_consistent(out@, *ranking);
    }
    out
}

/// The first items of a list in order come before all others: what is not among them may
/// stand behind each of them. As many are taken as asked for, or all there are.
pub proof fn lemma_first_come_first<T, R: Comparison<T>>(
    from: Seq<T>,
    to: Seq<T>,
    ranking: R,
    n: int,
    i: int,
    other: T,
)
    requires
        to.to_multiset() == from.to_multiset(),
        is_sorted(to, ranking),
        0 <= i < n <= to.len(),
        from.contains(other),
        !to.take(n).contains(other),
    ensures
        ranking.precedes(to[i], other),
{
    broadcast use vstd::seq_lib::group_to_multiset_ensures;

    assert(from.to_multiset().count(other) > 0);
    assert(to.contains(other));
    let j = to.index_of(other);
    if j < n {
        assert(to.take(n)[j] == other);
    }
}

/// Putting items in order neither loses nor adds any.
pub proof fn lemma_nothing_is_lost<T>(from: Seq<T>, to: Seq<T>)
    requires
        to.to_multiset() == from.to_multiset(),
    ensures
        to.len() == from.len(),
        forall|x: T| #[trigger] from.contains(x) == to.contains(x),
{
    broadcast use vstd::seq_lib::group_to_multiset_ensures;

    assert(from.to_multiset().len() == from.len() && to.to_multiset().len() == to.len());
    assert forall|x: T| #[trigger] from.contains(x) == to.contains(x) by {
        assert(from.contains(x) <==> from.to_multiset().count(x) > 0);
        assert(to.contains(x) <==> to.to_multiset().count(x) > 0);
    }
}

} // verus!
