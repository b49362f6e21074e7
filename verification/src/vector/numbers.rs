//! Widening vectors, checking them before they are scored, and comparing what two
//! searches found.

use vstd::prelude::*;

use crate::strings;
use crate::phrase::say;
use crate::error::{invalid_query, Error};
use crate::schema;
use crate::sorted::SortedSet;
use crate::value;
use crate::value::{copy_id, Id, IdView, VectorValue, VectorView};
use crate::vector::index::copy_vector;

verus! {

/// The bits of the single-precision number equal to a half-precision one. A
/// half-precision number has a sign, five bits of exponent and ten of fraction;
/// one without exponent bits is a multiple of two to the power -24. A NaN keeps
/// its fraction and becomes quiet.
pub open spec fn half_as_single(bits: u16) -> nat {
    let sign: nat = if bits >= 0x8000 {
        0x8000_0000
    } else {
        0
    };
    let exponent = ((bits % 0x8000) / 0x400) as nat;
    let fraction = (bits % 0x400) as nat;
    let n = value::bit_length(fraction);
    if exponent == 31 {
        let quiet: nat = if fraction == 0 || fraction >= 0x200 {
            fraction
        } else {
            fraction + 0x200
        };
        sign + 0x7f80_0000 + quiet * 0x2000
    } else if exponent > 0 {
        sign + (exponent + 112) * 0x80_0000 + fraction * 0x2000
    } else if fraction == 0 {
        sign
    } else {
        (sign + (n + 101) * 0x80_0000 + fraction * value::two_to((24 - n) as nat)) as nat
    }
}

/// The bits of the single-precision number equal to a half-precision one.
pub fn widen(bits: u16) -> (r: u32)
    ensures
        r == half_as_single(bits),
{
    let sign: u32 = if bits >= 0x8000 {
        0x8000_0000
    } else {
        0
    };
    let exponent: u32 = ((bits % 0x8000) / 0x400) as u32;
    let fraction: u32 = (bits % 0x400) as u32;
    if exponent == 31 {
        let quiet: u32 = if fraction == 0 || fraction >= 0x200 {
            fraction
        } else {
            fraction + 0x200
        };
        sign + 0x7f80_0000 + quiet * 0x2000
    } else if exponent > 0 {
        sign + (exponent + 112) * 0x80_0000 + fraction * 0x2000
    } else if fraction == 0 {
        sign
    } else {
        let mut n: u32 = 0;
        let mut rest: u32 = fraction;
        let mut scaled: u32 = fraction;
        let mut k: u32 = 0;
        assert(value::two_to(0) * fraction == fraction) by {
            assert(value::two_to(0) == 1);
        }
        while rest > 0
            invariant
                n + value::bit_length(rest as nat) == value::bit_length(fraction as nat),
                value::two_to(n as nat) * rest <= fraction,
                fraction < 0x400,
                n <= 10,
            decreases rest,
        {
            proof {
                let f = value::two_to(n as nat) as int;
                let x = rest as int;
                assert(2 * f * (x / 2) <= f * x) by (nonlinear_arith)
                    requires
                        f >= 0,
                        x >= 0,
                ;
                assert(value::two_to((n + 1) as nat) == 2 * value::two_to(n as nat));
                assert(f <= f * x) by (nonlinear_arith)
                    requires
                        f >= 0,
                        x >= 1,
                ;
                if n >= 10 {
                    value::lemma_two_to_mono(10, n as nat);
                    assert(value::two_to(10) == 1024) by {
                        reveal_with_fuel(value::two_to, 11);
                    }
                }
            }
            rest = rest / 2;
            n = n + 1;
        }
        proof {
            value::lemma_bit_length(fraction as nat);
        }
        assert(fraction * value::two_to(0) == fraction) by {
            assert(value::two_to(0) == 1);
        }
        while k < 24 - n
            invariant
                k <= 24 - n,
                1 <= n <= 10,
                scaled == fraction * value::two_to(k as nat),
                fraction < value::two_to(n as nat),
            decreases 24 - n - k,
        {
            proof {
                lemma_scaled(fraction as nat, n as nat, k as nat);
            }
            scaled = 2 * scaled;
            k = k + 1;
        }
        proof {
            lemma_scaled_bound(fraction as nat, n as nat);
        }
        sign + (n + 101) * 0x80_0000 + scaled
    }
}

#[verifier::spinoff_prover]
proof fn lemma_large_powers()
    ensures
        value::two_to(23) == 0x80_0000,
        value::two_to(24) == 0x100_0000,
{
    assert(value::two_to(12) == 4096 && value::two_to(11) == 2048) by {
        reveal_with_fuel(value::two_to, 13);
    }
    value::lemma_two_to_sum(12, 12);
    value::lemma_two_to_sum(12, 11);
}

#[verifier::spinoff_prover]
proof fn lemma_scaled(fraction: nat, n: nat, k: nat)
    requires
        fraction < value::two_to(n),
        n + k < 24,
    ensures
        2 * (fraction * value::two_to(k)) == fraction * value::two_to(k + 1),
        fraction * value::two_to(k) < 0x80_0000,
{
    let f = fraction as int;
    let t = value::two_to(k) as int;
    let b = value::two_to(n) as int;
    assert(2 * (f * t) == f * (2 * t)) by (nonlinear_arith);
    value::lemma_two_to_sum(n, k);
    value::lemma_two_to_sum(k, 0);
    value::lemma_two_to_mono(n + k, 23);
    lemma_large_powers();
    assert(f * t < b * t) by (nonlinear_arith)
        requires
            f < b,
            t > 0,
    ;
}

#[verifier::spinoff_prover]
proof fn lemma_scaled_bound(fraction: nat, n: nat)
    requires
        fraction < value::two_to(n),
        n <= 10,
    ensures
        fraction * value::two_to((24 - n) as nat) < 0x100_0000,
{
    let f = fraction as int;
    let t = value::two_to((24 - n) as nat) as int;
    let b = value::two_to(n) as int;
    value::lemma_two_to_sum(n, (24 - n) as nat);
    value::lemma_two_to_sum((24 - n) as nat, 0);
    lemma_large_powers();
    assert(f * t < b * t) by (nonlinear_arith)
        requires
            f < b,
            t > 0,
    ;
}

/// A vector in single precision: the same components, half-precision ones widened.
pub open spec fn is_widened(v: VectorView, r: Seq<u32>) -> bool {
    match v {
        VectorView::F32(s) => r == s,
        VectorView::F16(s) => r.len() == s.len() && forall|i: int|
            0 <= i < s.len() ==> r[i] == half_as_single(#[trigger] s[i]),
    }
}

/// The components of a vector in single precision.
pub fn vector_to_f32(vector: &VectorValue) -> (r: Vec<u32>)
    ensures
        is_widened(vector@, r@),
        r@.len() == value::vector_dim(vector@),
{
    match vector {
        VectorValue::F32(values) => copy_vector(values),
        VectorValue::F16(values) => {
            let mut r: Vec<u32> = Vec::new();
            let mut i: usize = 0;
            while i < values.len()
                invariant
                    i <= values@.len(),
                    r@.len() == i,
                    forall|j: int|
                        0 <= j < i ==> r@[j] == half_as_single(#[trigger] values@[j]),
                decreases values@.len() - i,
            {
                r.push(widen(values[i]));
                i = i + 1;
            }
            r
        },
    }
}

/// Every component of a vector is finite.
pub open spec fn all_finite(v: Seq<u32>) -> bool {
    forall|i: int| 0 <= i < v.len() ==> schema::f32_is_finite(#[trigger] v[i])
}

/// Whether every component of a vector is finite.
pub fn is_all_finite(v: &Vec<u32>) -> (b: bool)
    ensures
        b == all_finite(v@),
{
    let mut i: usize = 0;
    while i < v.len()
        invariant
            i <= v@.len(),
            forall|j: int| 0 <= j < i ==> schema::f32_is_finite(#[trigger] v@[j]),
        decreases v@.len() - i,
    {
        if v[i] % 0x8000_0000 >= 0x7f80_0000 {
            assert(!schema::f32_is_finite(v@[i as int]));
            return false;
        }
        i = i + 1;
    }
    true
}

/// Vectors that can be scored with a query: as many components, all finite, and
/// as many places for the scores.
pub open spec fn batch_ok(query: Seq<u32>, candidates: Seq<Vec<u32>>, places: int) -> bool {
    &&& candidates.len() == places
    &&& all_finite(query)
    &&& forall|i: int|
        0 <= i < candidates.len() ==> (#[trigger] candidates[i])@.len() == query.len()
            && all_finite(candidates[i]@)
}

/// What is wrong with vectors that cannot be scored.
pub open spec fn batch_complaint(
    query: Seq<u32>,
    candidates: Seq<Vec<u32>>,
    places: int,
) -> Seq<char> {
    if candidates.len() != places {
        "score output has len "@ + strings::decimal(places as nat) + ", expected "@
            + strings::decimal(candidates.len())
    } else if exists|i: int|
        0 <= i < candidates.len() && (#[trigger] candidates[i])@.len() != query.len() {
        "query and candidate vectors must have matching dimensions"@
    } else {
        "query and candidate vectors must contain only finite values"@
    }
}

/// Refuses vectors that cannot be scored.
pub fn validate_batch(query: &Vec<u32>, candidates: &Vec<Vec<u32>>, places: usize) -> (r: Result<
    (),
    Error,
>)
    ensures
        r is Ok <==> batch_ok(query@, candidates@, places as int),
        r is Err ==> r->Err_0 is InvalidQuery && r->Err_0->InvalidQuery_0@ == batch_complaint(
            query@,
            candidates@,
            places as int,
        ),
{
    if candidates.len() != places {
        return Err(
            Error::InvalidQuery(
                say("score output has len ").number(places as u64).and(", expected ").number(
                    candidates.len() as u64,
                ).done(),
            ),
        );
    }
    let mut k: usize = 0;
    while k < candidates.len()
        invariant
            k <= candidates@.len(),
            candidates@.len() == places,
            forall|j: int| 0 <= j < k ==> (#[trigger] candidates@[j])@.len() == query@.len(),
        decreases candidates@.len() - k,
    {
        if candidates[k].len() != query.len() {
            assert(candidates@[k as int]@.len() != query@.len());
            return Err(invalid_query("query and candidate vectors must have matching dimensions"));
        }
        k = k + 1;
    }
    if !is_all_finite(query) {
        return Err(invalid_query("query and candidate vectors must contain only finite values"));
    }
    let mut i: usize = 0;
    while i < candidates.len()
        invariant
            i <= candidates@.len(),
            candidates@.len() == places,
            all_finite(query@),
            forall|j: int|
                0 <= j < candidates@.len() ==> (#[trigger] candidates@[j])@.len() == query@.len(),
            forall|j: int| 0 <= j < i ==> all_finite((#[trigger] candidates@[j])@),
        decreases candidates@.len() - i,
    {
        if !is_all_finite(&candidates[i]) {
            assert(!all_finite(candidates@[i as int]@));
            return Err(
                invalid_query("query and candidate vectors must contain only finite values"),
            );
        }
        i = i + 1;
    }
    Ok(())
}

/// What keys stand for.
pub open spec fn ids_view(ids: Seq<Id>) -> Seq<IdView> {
    Seq::new(ids.len(), |i: int| ids[i]@)
}

/// At most the first `k` items.
pub open spec fn at_most<T>(s: Seq<T>, k: int) -> Seq<T> {
    if k < s.len() {
        s.take(k)
    } else {
        s
    }
}

/// How many of some keys are in a set.
pub open spec fn count_in(ids: Seq<IdView>, set: Set<IdView>) -> nat
    decreases ids.len(),
{
    if ids.len() == 0 {
        0
    } else {
        count_in(ids.drop_last(), set) + (if set.contains(ids.last()) {
            1nat
        } else {
            0nat
        })
    }
}

/// Of how many an approximate search should have found, as a fraction: of its
/// first `k` keys those that are among the first `k` of an exact search, over the
/// number of different keys there, but at least one. With `k` zero it is one.
pub open spec fn recall_of(exact: Seq<IdView>, approximate: Seq<IdView>, k: int) -> (int, int) {
    if k == 0 {
        (1, 1)
    } else {
        let wanted = at_most(exact, k).to_set();
        let of = if wanted.len() < k {
            wanted.len() as int
        } else {
            k
        };
        (
            count_in(at_most(approximate, k), wanted) as int,
            if of < 1 {
                1
            } else {
                of
            },
        )
    }
}

/// The recall of an approximate search, as a fraction.
pub fn recall_at(exact: &Vec<Id>, approximate: &Vec<Id>, k: usize) -> (r: (usize, usize))
    ensures
        (r.0 as int, r.1 as int) == recall_of(ids_view(exact@), ids_view(approximate@), k as int),
        r.1 >= 1,
{
    if k == 0 {
        return (1, 1);
    }
    let n: usize = if k < exact.len() {
        k
    } else {
        exact.len()
    };
    let ghost es = ids_view(exact@);
    let mut wanted: SortedSet<Id> = SortedSet::new();
    let mut i: usize = 0;
    assert(es.take(0).to_set() =~= Set::empty());
    while i < n
        invariant
            i <= n <= exact@.len(),
            es == ids_view(exact@),
            wanted.wf(),
            wanted.set() == es.take(i as int).to_set(),
        decreases n - i,
    {
        wanted.insert(copy_id(&exact[i]));
        proof {
            let x = es[i as int];
            assert(es.take(i + 1) =~= es.take(i as int).push(x));
            assert forall|id: IdView| es.take(i + 1).contains(id) == (es.take(i as int).contains(id)
                || id == x) by {
                if es.take(i as int).contains(id) {
                    let j = es.take(i as int).index_of(id);
                    assert(es.take(i + 1)[j] == id);
                }
                if id == x {
                    assert(es.take(i + 1)[i as int] == id);
                }
                if es.take(i + 1).contains(id) {
                    let j = es.take(i + 1).index_of(id);
                    if j < i {
                        assert(es.take(i as int)[j] == id);
                    }
                }
            }
            assert(es.take(i + 1).to_set() =~= es.take(i as int).to_set().insert(x));
        }
        i = i + 1;
    }
    assert(es.take(n as int) =~= at_most(es, k as int));
    let ghost want = at_most(es, k as int).to_set();
    proof {
        wanted.lemma_count();
    }
    let m: usize = if k < approximate.len() {
        k
    } else {
        approximate.len()
    };
    let ghost aps = ids_view(approximate@);
    let mut got: usize = 0;
    let mut i: usize = 0;
    assert(aps.take(0) =~= Seq::empty());
    while i < m
        invariant
            i <= m <= approximate@.len(),
            aps == ids_view(approximate@),
            wanted.wf(),
            wanted.set() == want,
            got <= i,
            got == count_in(aps.take(i as int), want),
        decreases m - i,
    {
        assert(aps.take(i + 1).drop_last() =~= aps.take(i as int));
        assert(aps.take(i + 1).last() == aps[i as int]);
        if wanted.contains(&approximate[i]) {
            got = got + 1;
        }
        i = i + 1;
    }
    assert(aps.take(m as int) =~= at_most(aps, k as int));
    let of: usize = if wanted.len() < k {
        wanted.len()
    } else {
        k
    };
    (
        got,
        if of < 1 {
            1
        } else {
            of
        },
    )
}

/// A search that finds what an exact one does, among its first `k` different keys, has
/// found all; one that finds none of them has found nothing.
pub proof fn law_recall_goes_from_none_to_all(
    exact: Seq<IdView>,
    approximate: Seq<IdView>,
    k: int,
)
    requires
        k > 0,
        exact.len() > 0,
        exact.no_duplicates(),
    ensures
        recall_of(exact, exact, k).0 == recall_of(exact, exact, k).1,
        recall_of(exact, exact, k).1 == (if k < exact.len() {
            k
        } else {
            exact.len() as int
        }),
        (forall|i: int|
            0 <= i < approximate.len() && i < k ==> !at_most(exact, k).contains(
                #[trigger] approximate[i],
            )) ==> recall_of(exact, approximate, k).0 == 0,
        recall_of(exact, approximate, k).1 == recall_of(exact, exact, k).1,
        recall_of(exact, approximate, k).0 <= k,
{
    let wanted = at_most(exact, k);
    let set = wanted.to_set();
    assert(wanted.no_duplicates()) by {
        assert forall|i: int, j: int| 0 <= i < wanted.len() && 0 <= j < wanted.len() && i != j
            implies wanted[i] != wanted[j] by {
            assert(wanted[i] == exact[i] && wanted[j] == exact[j]);
        }
    }
    wanted.unique_seq_to_set();
    lemma_count_all(wanted, set);
    let got = at_most(approximate, k);
    lemma_count_bounded(got, set);
    if forall|i: int|
        0 <= i < approximate.len() && i < k ==> !at_most(exact, k).contains(
            #[trigger] approximate[i],
        ) {
        assert forall|i: int| 0 <= i < got.len() implies !set.contains(#[trigger] got[i]) by {
            assert(got[i] == approximate[i]);
        }
        lemma_count_none(got, set);
    }
}

proof fn lemma_count_all(ids: Seq<IdView>, set: Set<IdView>)
    requires
        forall|i: int| 0 <= i < ids.len() ==> set.contains(#[trigger] ids[i]),
    ensures
        count_in(ids, set) == ids.len(),
    decreases ids.len(),
{
    if ids.len() > 0 {
        assert(set.contains(ids[ids.len() - 1]));
        assert forall|i: int| 0 <= i < ids.drop_last().len() implies set.contains(
            #[trigger] ids.drop_last()[i],
        ) by {
            assert(ids.drop_last()[i] == ids[i]);
        }
        lemma_count_all(ids.drop_last(), set);
    }
}

proof fn lemma_count_none(ids: Seq<IdView>, set: Set<IdView>)
    requires
        forall|i: int| 0 <= i < ids.len() ==> !set.contains(#[trigger] ids[i]),
    ensures
        count_in(ids, set) == 0,
    decreases ids.len(),
{
    if ids.len() > 0 {
        assert(!set.contains(ids[ids.len() - 1]));
        assert forall|i: int| 0 <= i < ids.drop_last().len() implies !set.contains(
            #[trigger] ids.drop_last()[i],
        ) by {
            assert(ids.drop_last()[i] == ids[i]);
        }
        lemma_count_none(ids.drop_last(), set);
    }
}

proof fn lemma_count_bounded(ids: Seq<IdView>, set: Set<IdView>)
    ensures
        count_in(ids, set) <= ids.len(),
    decreases ids.len(),
{
    if ids.len() > 0 {
        lemma_count_bounded(ids.drop_last(), set);
    }
}

} // verus!
