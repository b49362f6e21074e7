//! Facts about searching and counting in sequences.

use vstd::prelude::*;

verus! {

/// The position of the first item, from `i` on, that satisfies `p`; the length
/// if there is none.
pub open spec fn first_from<T>(s: Seq<T>, p: spec_fn(T) -> bool, i: int) -> int
    decreases s.len() - i,
{
    if i >= s.len() {
        s.len() as int
    } else if p(s[i]) {
        i
    } else {
        first_from(s, p, i + 1)
    }
}

/// The position of the first item that satisfies `p`; the length if there is
/// none.
pub open spec fn first_where<T>(s: Seq<T>, p: spec_fn(T) -> bool) -> int {
    first_from(s, p, 0)
}

proof fn lemma_first_from<T>(s: Seq<T>, p: spec_fn(T) -> bool, i: int, k: int)
    requires
        0 <= i <= k <= s.len(),
        forall|j: int| 0 <= j < k ==> !p(#[trigger] s[j]),
        k < s.len() ==> p(s[k]),
    ensures
        first_from(s, p, i) == k,
    decreases k - i,
{
    if i < k {
        assert(!p(s[i]));
        lemma_first_from(s, p, i + 1, k);
    }
}

/// A position that satisfies `p` (or the length), with none before it that does,
/// is the first one.
pub proof fn lemma_first_is<T>(s: Seq<T>, p: spec_fn(T) -> bool, k: int)
    requires
        0 <= k <= s.len(),
        forall|j: int| 0 <= j < k ==> !p(#[trigger] s[j]),
        k < s.len() ==> p(s[k]),
    ensures
        first_where(s, p) == k,
{
    lemma_first_from(s, p, 0, k);
}

/// What `first_from` is.
pub proof fn lemma_first_from_bounds<T>(s: Seq<T>, p: spec_fn(T) -> bool, i: int)
    requires
        0 <= i <= s.len(),
    ensures
        i <= first_from(s, p, i) <= s.len(),
        first_from(s, p, i) < s.len() ==> p(s[first_from(s, p, i)]),
        forall|j: int| i <= j < first_from(s, p, i) ==> !p(#[trigger] s[j]),
    decreases s.len() - i,
{
    if i < s.len() && !p(s[i]) {
        lemma_first_from_bounds(s, p, i + 1);
    }
}

/// What `first_where` is.
pub proof fn lemma_first_where<T>(s: Seq<T>, p: spec_fn(T) -> bool)
    ensures
        0 <= first_where(s, p) <= s.len(),
        first_where(s, p) < s.len() ==> p(s[first_where(s, p)]),
        forall|j: int| 0 <= j < first_where(s, p) ==> !p(#[trigger] s[j]),
{
    lemma_first_from_bounds(s, p, 0);
}

/// How many items satisfy `p`.
pub open spec fn count_where<T>(s: Seq<T>, p: spec_fn(T) -> bool) -> nat
    decreases s.len(),
{
    if s.len() == 0 {
        0
    } else {
        count_where(s.drop_last(), p) + (if p(s.last()) {
            1nat
        } else {
            0nat
        })
    }
}

/// Counting one item more.
pub proof fn lemma_count_next<T>(s: Seq<T>, p: spec_fn(T) -> bool, i: int)
    requires
        0 <= i < s.len(),
    ensures
        count_where(s.take(i + 1), p) == count_where(s.take(i), p) + (if p(s[i]) {
            1nat
        } else {
            0nat
        }),
{
    assert(s.take(i + 1).drop_last() =~= s.take(i));
    assert(s.take(i + 1).last() == s[i]);
}

/// No more items can satisfy `p` than there are.
pub proof fn lemma_count_bound<T>(s: Seq<T>, p: spec_fn(T) -> bool)
    ensures
        count_where(s, p) <= s.len(),
    decreases s.len(),
{
    if s.len() > 0 {
        lemma_count_bound(s.drop_last(), p);
    }
}

/// The items that satisfy `p`, in order.
pub open spec fn kept<T>(s: Seq<T>, p: spec_fn(T) -> bool) -> Seq<T>
    decreases s.len(),
{
    if s.len() == 0 {
        Seq::empty()
    } else if p(s.last()) {
        kept(s.drop_last(), p).push(s.last())
    } else {
        kept(s.drop_last(), p)
    }
}

/// Keeping one item more.
pub proof fn lemma_kept_next<T>(s: Seq<T>, p: spec_fn(T) -> bool, i: int)
    requires
        0 <= i < s.len(),
    ensures
        kept(s.take(i + 1), p) == (if p(s[i]) {
            kept(s.take(i), p).push(s[i])
        } else {
            kept(s.take(i), p)
        }),
{
    assert(s.take(i + 1).drop_last() =~= s.take(i));
    assert(s.take(i + 1).last() == s[i]);
}

/// Every kept item satisfies `p` and was there before.
pub proof fn lemma_kept_from<T>(s: Seq<T>, p: spec_fn(T) -> bool, i: int)
    requires
        0 <= i < kept(s, p).len(),
    ensures
        p(kept(s, p)[i]),
        s.contains(kept(s, p)[i]),
    decreases s.len(),
{
    if s.len() > 0 {
        let front = kept(s.drop_last(), p);
        if i < front.len() {
            lemma_kept_from(s.drop_last(), p, i);
            let j = s.drop_last().index_of(front[i]);
            assert(s[j] == front[i]);
        } else {
            assert(s[s.len() - 1] == kept(s, p)[i]);
        }
    }
}

/// Every item that satisfies `p` is kept.
pub proof fn lemma_kept_has<T>(s: Seq<T>, p: spec_fn(T) -> bool, x: T)
    requires
        s.contains(x),
        p(x),
    ensures
        kept(s, p).contains(x),
    decreases s.len(),
{
    if s.len() > 0 {
        let j = s.index_of(x);
        let front = kept(s.drop_last(), p);
        if s.last() == x {
            assert(kept(s, p)[kept(s, p).len() - 1] == x);
        } else {
            assert(s.drop_last()[j] == x);
            lemma_kept_has(s.drop_last(), p, x);
            let k = front.index_of(x);
            assert(kept(s, p)[k] == x);
        }
    }
}

/// Two kept items come from two items in the same order.
pub proof fn lemma_kept_order<T>(s: Seq<T>, p: spec_fn(T) -> bool, i: int, j: int) -> (at: (
    int,
    int,
))
    requires
        0 <= i < j < kept(s, p).len(),
    ensures
        0 <= at.0 < at.1 < s.len(),
        s[at.0] == kept(s, p)[i],
        s[at.1] == kept(s, p)[j],
    decreases s.len(),
{
    let front = kept(s.drop_last(), p);
    if j < front.len() {
        lemma_kept_order(s.drop_last(), p, i, j)
    } else {
        lemma_kept_from(s.drop_last(), p, i);
        let a = s.drop_last().index_of(front[i]);
        (a, s.len() - 1)
    }
}

/// Where every item satisfies `p`, all are kept.
pub proof fn lemma_kept_all<T>(s: Seq<T>, p: spec_fn(T) -> bool)
    requires
        forall|i: int| 0 <= i < s.len() ==> p(#[trigger] s[i]),
    ensures
        kept(s, p) == s,
    decreases s.len(),
{
    if s.len() > 0 {
        let front = s.drop_last();
        assert forall|i: int| 0 <= i < front.len() implies p(#[trigger] front[i]) by {
            assert(front[i] == s[i]);
        }
        lemma_kept_all(front, p);
        assert(p(s[s.len() - 1]));
        assert(front.push(s.last()) =~= s);
    }
}

/// What is kept of two lists, one after the other, is what is kept of each.
pub proof fn lemma_kept_concat<T>(s: Seq<T>, t: Seq<T>, p: spec_fn(T) -> bool)
    ensures
        kept(s + t, p) == kept(s, p) + kept(t, p),
    decreases t.len(),
{
    if t.len() == 0 {
        assert(s + t =~= s);
        assert(kept(s, p) + kept(t, p) =~= kept(s, p));
    } else {
        lemma_kept_concat(s, t.drop_last(), p);
        assert((s + t).drop_last() =~= s + t.drop_last());
        assert((s + t).last() == t.last());
        assert(kept(s + t, p) =~= kept(s, p) + kept(t, p));
    }
}

/// Keeping changes the length exactly where some item fails `p`.
pub proof fn lemma_kept_len<T>(s: Seq<T>, p: spec_fn(T) -> bool)
    ensures
        kept(s, p).len() <= s.len(),
        kept(s, p).len() == s.len() ==> kept(s, p) == s,
    decreases s.len(),
{
    if s.len() > 0 {
        lemma_kept_len(s.drop_last(), p);
        assert(s.drop_last().push(s.last()) =~= s);
    }
}

} // verus!
