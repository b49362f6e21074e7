//! The lexicographic order on byte strings, which every key of the engine
//! sorts by.

use vstd::prelude::*;

verus! {

/// The three outcomes of a comparison.
#[derive(Clone, Copy, Debug, PartialEq, Eq, Structural)]
pub enum Order {
    Less,
    Equal,
    Greater,
}

/// How many leading bytes two byte strings share.
pub open spec fn shared_len(a: Seq<u8>, b: Seq<u8>) -> nat
    decreases a.len(),
{
    if a.len() == 0 || b.len() == 0 || a[0] != b[0] {
        0
    } else {
        1 + shared_len(a.drop_first(), b.drop_first())
    }
}

/// `a` sorts strictly before `b`: `a` is a proper prefix of `b`, or the first
/// byte in which they differ is smaller in `a`.
pub open spec fn lex_lt(a: Seq<u8>, b: Seq<u8>) -> bool {
    let k = shared_len(a, b) as int;
    k < b.len() && (k == a.len() || a[k] < b[k])
}

/// The order of `a` relative to `b`.
pub open spec fn lex_order(a: Seq<u8>, b: Seq<u8>) -> Order {
    if a == b {
        Order::Equal
    } else if lex_lt(a, b) {
        Order::Less
    } else {
        Order::Greater
    }
}

/// What `shared_len` is: the two strings agree below it and differ, or one of
/// them ends, at it.
pub proof fn lemma_shared_len(a: Seq<u8>, b: Seq<u8>)
    ensures
        shared_len(a, b) <= a.len(),
        shared_len(a, b) <= b.len(),
        forall|i: int| 0 <= i < shared_len(a, b) ==> a[i] == b[i],
        shared_len(a, b) < a.len() && shared_len(a, b) < b.len() ==> a[shared_len(a, b) as int]
            != b[shared_len(a, b) as int],
    decreases a.len(),
{
    if a.len() == 0 || b.len() == 0 || a[0] != b[0] {
    } else {
        let ta = a.drop_first();
        let tb = b.drop_first();
        lemma_shared_len(ta, tb);
        let k = shared_len(ta, tb) as int;
        assert(shared_len(a, b) == k + 1);
        assert forall|i: int| 0 <= i < k + 1 implies a[i] == b[i] by {
            if i > 0 {
                assert(a[i] == ta[i - 1]);
                assert(b[i] == tb[i - 1]);
            }
        }
        if k + 1 < a.len() && k + 1 < b.len() {
            assert(a[k + 1] == ta[k]);
            assert(b[k + 1] == tb[k]);
        }
    }
}

/// `shared_len` is the only number of which `lemma_shared_len` speaks.
pub proof fn lemma_shared_len_unique(a: Seq<u8>, b: Seq<u8>, k: int)
    requires
        0 <= k <= a.len(),
        k <= b.len(),
        forall|i: int| 0 <= i < k ==> a[i] == b[i],
        k < a.len() && k < b.len() ==> a[k] != b[k],
    ensures
        shared_len(a, b) == k,
{
    lemma_shared_len(a, b);
    let s = shared_len(a, b) as int;
    if s < k {
        assert(a[s] == b[s]);
    } else if k < s {
        assert(a[k] == b[k]);
    }
}

/// Nothing sorts before itself.
pub proof fn lemma_lex_irreflexive(a: Seq<u8>)
    ensures
        !lex_lt(a, a),
{
    lemma_shared_len(a, a);
}

/// The order is transitive.
pub proof fn lemma_lex_transitive(a: Seq<u8>, b: Seq<u8>, c: Seq<u8>)
    requires
        lex_lt(a, b),
        lex_lt(b, c),
    ensures
        lex_lt(a, c),
{
    lemma_shared_len(a, b);
    lemma_shared_len(b, c);
    let i = shared_len(a, b) as int;
    let j = shared_len(b, c) as int;
    let k = if i < j { i } else { j };
    assert forall|x: int| 0 <= x < k implies a[x] == c[x] by {
        assert(a[x] == b[x]);
        assert(b[x] == c[x]);
    }
    lemma_shared_len_unique(a, c, k);
}

/// The order is total: of two different strings one sorts before the other,
/// and only one.
pub proof fn lemma_lex_total(a: Seq<u8>, b: Seq<u8>)
    ensures
        a == b || lex_lt(a, b) || lex_lt(b, a),
        !(lex_lt(a, b) && lex_lt(b, a)),
        lex_lt(a, b) ==> a != b,
{
    lemma_shared_len(a, b);
    let k = shared_len(a, b) as int;
    lemma_shared_len_unique(b, a, k);
    if k == a.len() && k == b.len() {
        assert(a =~= b);
    }
    if a == b {
        lemma_lex_irreflexive(a);
    }
}

/// A common prefix does not affect the order.
pub proof fn lemma_lex_prefix(p: Seq<u8>, a: Seq<u8>, b: Seq<u8>)
    ensures
        lex_lt(p + a, p + b) == lex_lt(a, b),
{
    lemma_shared_len(a, b);
    let k = shared_len(a, b) as int;
    let n = p.len() as int;
    assert forall|x: int| 0 <= x < n + k implies (p + a)[x] == (p + b)[x] by {
        if x >= n {
            assert((p + a)[x] == a[x - n]);
            assert((p + b)[x] == b[x - n]);
        }
    }
    lemma_shared_len_unique(p + a, p + b, n + k);
}

/// Where neither of two strings is a prefix of the other, what follows them
/// does not affect the order.
pub proof fn lemma_lex_suffix(a: Seq<u8>, b: Seq<u8>, x: Seq<u8>, y: Seq<u8>)
    requires
        shared_len(a, b) < a.len(),
        shared_len(a, b) < b.len(),
    ensures
        lex_lt(a + x, b + y) == lex_lt(a, b),
        a + x != b + y,
{
    lemma_shared_len(a, b);
    let k = shared_len(a, b) as int;
    assert((a + x)[k] == a[k]);
    assert((b + y)[k] == b[k]);
    assert forall|i: int| 0 <= i < k implies (a + x)[i] == (b + y)[i] by {
        assert((a + x)[i] == a[i]);
        assert((b + y)[i] == b[i]);
    }
    lemma_shared_len_unique(a + x, b + y, k);
}

/// How many leading bytes `a` and `b` share.
pub fn common_prefix(a: &[u8], b: &[u8]) -> (n: usize)
    ensures
        n == shared_len(a@, b@),
        n <= a@.len(),
        n <= b@.len(),
        a@.subrange(0, n as int) == b@.subrange(0, n as int),
{
    let mut n: usize = 0;
    while n < a.len() && n < b.len() && a[n] == b[n]
        invariant
            n <= a@.len(),
            n <= b@.len(),
            forall|i: int| 0 <= i < n ==> a@[i] == b@[i],
        decreases a@.len() - n,
    {
        n = n + 1;
    }
    proof {
        lemma_shared_len_unique(a@, b@, n as int);
        assert(a@.subrange(0, n as int) =~= b@.subrange(0, n as int));
    }
    n
}

/// The order of `a` relative to `b`.
pub fn compare_bytes(a: &[u8], b: &[u8]) -> (o: Order)
    ensures
        o == lex_order(a@, b@),
{
    let n = common_prefix(a, b);
    proof {
        lemma_shared_len(a@, b@);
        lemma_lex_total(a@, b@);
    }
    if n < b.len() {
        if n == a.len() || a[n] < b[n] {
            Order::Less
        } else {
            Order::Greater
        }
    } else if n < a.len() {
        Order::Greater
    } else {
        assert(a@ =~= b@);
        Order::Equal
    }
}

/// Whether two byte strings are equal.
pub fn same_bytes(a: &[u8], b: &[u8]) -> (same: bool)
    ensures
        same == (a@ == b@),
{
    matches!(compare_bytes(a, b), Order::Equal)
}

/// A byte string sorts before another exactly if it is a proper prefix of it, or both
/// agree up to a byte that is smaller in the first.
pub proof fn law_first_difference_decides(a: Seq<u8>, b: Seq<u8>)
    ensures
        lex_lt(a, b) <==> (a.len() < b.len() && b.take(a.len() as int) == a) || exists|k: int|
            0 <= k < a.len() && k < b.len() && a.take(k) == b.take(k) && #[trigger] a[k] < b[k],
        lex_order(a, b) == Order::Less <==> lex_lt(a, b),
        lex_order(a, b) == Order::Equal <==> a == b,
        lex_order(a, b) == Order::Greater <==> lex_lt(b, a),
{
    lemma_shared_len(a, b);
    lemma_lex_total(a, b);
    let k = shared_len(a, b) as int;
    if lex_lt(a, b) {
        if k == a.len() {
            assert(b.take(a.len() as int) =~= a);
        } else {
            assert(a.take(k) =~= b.take(k));
        }
    }
    if a.len() < b.len() && b.take(a.len() as int) == a {
        assert forall|i: int| 0 <= i < a.len() implies a[i] == b[i] by {
            assert(b.take(a.len() as int)[i] == a[i]);
        }
        lemma_shared_len_unique(a, b, a.len() as int);
    }
    if exists|k: int|
        0 <= k < a.len() && k < b.len() && a.take(k) == b.take(k) && #[trigger] a[k] < b[k] {
        let k = choose|k: int|
            0 <= k < a.len() && k < b.len() && a.take(k) == b.take(k) && #[trigger] a[k] < b[k];
        assert forall|i: int| 0 <= i < k implies a[i] == b[i] by {
            assert(a.take(k)[i] == b.take(k)[i]);
        }
        lemma_shared_len_unique(a, b, k);
    }
}

} // verus!
