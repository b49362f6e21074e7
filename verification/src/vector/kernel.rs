//! How alike two vectors are, and the middle of some vectors, in the caller's
//! arithmetic.

use vstd::prelude::*;

use crate::arithmetic;
use crate::arithmetic::{compute, negate, Step, NEGATIVE_ZERO};
use crate::error::{invalid_query, Error};
use crate::rounding;
use crate::schema::DistanceMetric;
use crate::vector;
use crate::vector::numbers;
use crate::vector::numbers::validate_batch;
use crate::vector::VectorEntry;

verus! {

/// The sum of the products of the first `n` components, from the first on.
pub open spec fn dot_of<M: Fn(Step) -> u32>(calc: M, a: Seq<u32>, b: Seq<u32>, n: int) -> u32
    decreases n,
{
    if n <= 0 {
        arithmetic::NEGATIVE_ZERO
    } else {
        let product = arithmetic::answer(calc, Step::Mul(a[n - 1], b[n - 1]));
        arithmetic::answer(calc, Step::Add(dot_of(calc, a, b, n - 1), product))
    }
}

/// The sum of the squared differences of the first `n` components, from the first on.
pub open spec fn distance_of<M: Fn(Step) -> u32>(
    calc: M,
    a: Seq<u32>,
    b: Seq<u32>,
    n: int,
) -> u32
    decreases n,
{
    if n <= 0 {
        arithmetic::NEGATIVE_ZERO
    } else {
        let d = arithmetic::answer(calc, Step::Sub(a[n - 1], b[n - 1]));
        arithmetic::answer(
            calc,
            Step::Add(distance_of(calc, a, b, n - 1), arithmetic::answer(calc, Step::Mul(d, d))),
        )
    }
}

/// The length of a vector.
pub open spec fn length_of<M: Fn(Step) -> u32>(calc: M, v: Seq<u32>) -> u32 {
    arithmetic::answer(calc, Step::Sqrt(dot_of(calc, v, v, v.len() as int)))
}

/// The score of two vectors; the higher, the more alike they are. A vector without
/// length has no cosine.
pub open spec fn pair_score<M: Fn(Step) -> u32>(
    calc: M,
    query: Seq<u32>,
    candidate: Seq<u32>,
    metric: DistanceMetric,
) -> Option<u32> {
    let n = query.len() as int;
    match metric {
        DistanceMetric::L2 => Some(arithmetic::negated(distance_of(calc, query, candidate, n))),
        DistanceMetric::Dot => Some(dot_of(calc, query, candidate, n)),
        DistanceMetric::Cosine => {
            let lengths = (length_of(calc, query), length_of(calc, candidate));
            if arithmetic::is_zero(lengths.0) || arithmetic::is_zero(lengths.1) {
                None
            } else {
                Some(
                    arithmetic::answer(
                        calc,
                        Step::Div(
                            dot_of(calc, query, candidate, n),
                            arithmetic::answer(calc, Step::Mul(lengths.0, lengths.1)),
                        ),
                    ),
                )
            }
        },
    }
}

/// The first candidate from the `i`th on that has no score with a query.
pub open spec fn reach<M: Fn(Step) -> u32>(
    calc: M,
    query: Seq<u32>,
    candidates: Seq<Vec<u32>>,
    metric: DistanceMetric,
    i: int,
) -> int
    decreases candidates.len() - i,
{
    if i >= candidates.len() || pair_score(calc, query, candidates[i]@, metric) is None {
        i
    } else {
        reach(calc, query, candidates, metric, i + 1)
    }
}

/// How many of the candidates are scored: all up to the first that has no score.
pub open spec fn scored_count<M: Fn(Step) -> u32>(
    calc: M,
    query: Seq<u32>,
    candidates: Seq<Vec<u32>>,
    metric: DistanceMetric,
    places: int,
) -> int {
    if numbers::batch_ok(query, candidates, places) {
        reach(calc, query, candidates, metric, 0)
    } else {
        0
    }
}

/// Every candidate gets a score. A query without length has no cosine, even where
/// there is nothing to score.
pub open spec fn scores_all<M: Fn(Step) -> u32>(
    calc: M,
    query: Seq<u32>,
    candidates: Seq<Vec<u32>>,
    metric: DistanceMetric,
    places: int,
) -> bool {
    &&& numbers::batch_ok(query, candidates, places)
    &&& metric is Cosine ==> !arithmetic::is_zero(length_of(calc, query))
    &&& scored_count(calc, query, candidates, metric, places) == candidates.len()
}

/// What stands in the places of the scores once the first `n` candidates are scored.
pub open spec fn filled<M: Fn(Step) -> u32>(
    calc: M,
    query: Seq<u32>,
    candidates: Seq<Vec<u32>>,
    metric: DistanceMetric,
    before: Seq<u32>,
    n: int,
) -> Seq<u32> {
    Seq::new(
        before.len(),
        |i: int|
            if i < n {
                pair_score(calc, query, candidates[i]@, metric)->Some_0
            } else {
                before[i]
            },
    )
}

fn dot<M: Copy + Fn(Step) -> u32>(a: &Vec<u32>, b: &Vec<u32>, calc: M) -> (r: u32)
    requires
        arithmetic::is_arithmetic(calc),
        a@.len() == b@.len(),
    ensures
        r == dot_of(calc, a@, b@, a@.len() as int),
{
    let mut sum: u32 = NEGATIVE_ZERO;
    let mut i: usize = 0;
    while i < a.len()
        invariant
            i <= a@.len() == b@.len(),
            arithmetic::is_arithmetic(calc),
            sum == dot_of(calc, a@, b@, i as int),
        decreases a@.len() - i,
    {
        let product: u32 = compute(calc, Step::Mul(a[i], b[i]));
        sum = compute(calc, Step::Add(sum, product));
        i = i + 1;
    }
    sum
}

fn distance<M: Copy + Fn(Step) -> u32>(a: &Vec<u32>, b: &Vec<u32>, calc: M) -> (r: u32)
    requires
        arithmetic::is_arithmetic(calc),
        a@.len() == b@.len(),
    ensures
        r == distance_of(calc, a@, b@, a@.len() as int),
{
    let mut sum: u32 = NEGATIVE_ZERO;
    let mut i: usize = 0;
    while i < a.len()
        invariant
            i <= a@.len() == b@.len(),
            arithmetic::is_arithmetic(calc),
            sum == distance_of(calc, a@, b@, i as int),
        decreases a@.len() - i,
    {
        let d: u32 = compute(calc, Step::Sub(a[i], b[i]));
        let square: u32 = compute(calc, Step::Mul(d, d));
        sum = compute(calc, Step::Add(sum, square));
        i = i + 1;
    }
    sum
}

fn length<M: Copy + Fn(Step) -> u32>(v: &Vec<u32>, calc: M) -> (r: u32)
    requires
        arithmetic::is_arithmetic(calc),
    ensures
        r == length_of(calc, v@),
{
    let squares: u32 = dot(v, v, calc);
    compute(calc, Step::Sqrt(squares))
}

proof fn lemma_reach<M: Fn(Step) -> u32>(
    calc: M,
    query: Seq<u32>,
    candidates: Seq<Vec<u32>>,
    metric: DistanceMetric,
    i: int,
    j: int,
)
    requires
        0 <= i <= j <= candidates.len(),
        forall|k: int|
            i <= k < j ==> pair_score(calc, query, (#[trigger] candidates[k])@, metric) is Some,
    ensures
        reach(calc, query, candidates, metric, i) == reach(calc, query, candidates, metric, j),
    decreases j - i,
{
    if i < j {
        assert(pair_score(calc, query, candidates[i]@, metric) is Some);
        lemma_reach(calc, query, candidates, metric, i + 1, j);
    }
}

/// Why vectors are not scored: they cannot be, or one of them has no direction.
pub open spec fn scoring_complaint(
    query: Seq<u32>,
    candidates: Seq<Vec<u32>>,
    places: int,
) -> Seq<char> {
    if !numbers::batch_ok(query, candidates, places) {
        numbers::batch_complaint(query, candidates, places)
    } else {
        "cosine query and candidate vectors must be non-zero"@
    }
}

/// Scores many vectors against one, each into its place. Higher is better.
pub trait DistanceKernel {
    fn l2_f32_batch<M: Copy + Fn(Step) -> u32>(
        query: &Vec<u32>,
        candidates: &Vec<Vec<u32>>,
        out: &mut Vec<u32>,
        calc: M,
    ) -> (r: Result<(), Error>)
        requires
            arithmetic::is_arithmetic(calc),
    ;

    fn dot_f32_batch<M: Copy + Fn(Step) -> u32>(
        query: &Vec<u32>,
        candidates: &Vec<Vec<u32>>,
        out: &mut Vec<u32>,
        calc: M,
    ) -> (r: Result<(), Error>)
        requires
            arithmetic::is_arithmetic(calc),
    ;

    fn cosine_f32_batch<M: Copy + Fn(Step) -> u32>(
        query: &Vec<u32>,
        candidates: &Vec<Vec<u32>>,
        out: &mut Vec<u32>,
        calc: M,
    ) -> (r: Result<(), Error>)
        requires
            arithmetic::is_arithmetic(calc),
    ;
}

/// Scores one component after the other.
pub struct ScalarDistanceKernel;

impl DistanceKernel for ScalarDistanceKernel {
    fn l2_f32_batch<M: Copy + Fn(Step) -> u32>(
        query: &Vec<u32>,
        candidates: &Vec<Vec<u32>>,
        out: &mut Vec<u32>,
        calc: M,
    ) -> (r: Result<(), Error>)
        ensures
            r is Ok <==> scores_all(
                calc,
                query@,
                candidates@,
                DistanceMetric::L2,
                old(out)@.len() as int,
            ),
            r is Err ==> r->Err_0 is InvalidQuery && r->Err_0->InvalidQuery_0@ == scoring_complaint(
                query@,
                candidates@,
                old(out)@.len() as int,
            ),
            final(out)@ == filled(
                calc,
                query@,
                candidates@,
                DistanceMetric::L2,
                old(out)@,
                scored_count(
                    calc,
                    query@,
                    candidates@,
                    DistanceMetric::L2,
                    old(out)@.len() as int,
                ),
            ),
    {
        let ghost before = out@;
        if let Err(e) = validate_batch(query, candidates, out.len()) {
            assert(before =~= filled(calc, query@, candidates@, DistanceMetric::L2, before, 0));
            return Err(e);
        }
        let mut i: usize = 0;
        while i < candidates.len()
            invariant
                i <= candidates@.len(),
                arithmetic::is_arithmetic(calc),
                numbers::batch_ok(query@, candidates@, before.len() as int),
                out@ == filled(
                    calc,
                    query@,
                    candidates@,
                    DistanceMetric::L2,
                    before,
                    i as int,
                ),
            decreases candidates@.len() - i,
        {
            let score: u32 = negate(distance(query, &candidates[i], calc));
            out.set(i, score);
            i = i + 1;
        }
        proof {
            lemma_reach(
                calc,
                query@,
                candidates@,
                DistanceMetric::L2,
                0,
                candidates@.len() as int,
            );
        }
        Ok(())
    }

    fn dot_f32_batch<M: Copy + Fn(Step) -> u32>(
        query: &Vec<u32>,
        candidates: &Vec<Vec<u32>>,
        out: &mut Vec<u32>,
        calc: M,
    ) -> (r: Result<(), Error>)
        ensures
            r is Ok <==> scores_all(
                calc,
                query@,
                candidates@,
                DistanceMetric::Dot,
                old(out)@.len() as int,
            ),
            r is Err ==> r->Err_0 is InvalidQuery && r->Err_0->InvalidQuery_0@ == scoring_complaint(
                query@,
                candidates@,
                old(out)@.len() as int,
            ),
            final(out)@ == filled(
                calc,
                query@,
                candidates@,
                DistanceMetric::Dot,
                old(out)@,
                scored_count(
                    calc,
                    query@,
                    candidates@,
                    DistanceMetric::Dot,
                    old(out)@.len() as int,
                ),
            ),
    {
        let ghost before = out@;
        if let Err(e) = validate_batch(query, candidates, out.len()) {
            assert(before =~= filled(calc, query@, candidates@, DistanceMetric::Dot, before, 0));
            return Err(e);
        }
        let mut i: usize = 0;
        while i < candidates.len()
            invariant
                i <= candidates@.len(),
                arithmetic::is_arithmetic(calc),
                numbers::batch_ok(query@, candidates@, before.len() as int),
                out@ == filled(
                    calc,
                    query@,
                    candidates@,
                    DistanceMetric::Dot,
                    before,
                    i as int,
                ),
            decreases candidates@.len() - i,
        {
            let score: u32 = dot(query, &candidates[i], calc);
            out.set(i, score);
            i = i + 1;
        }
        proof {
            lemma_reach(
                calc,
                query@,
                candidates@,
                DistanceMetric::Dot,
                0,
                candidates@.len() as int,
            );
        }
        Ok(())
    }

    fn cosine_f32_batch<M: Copy + Fn(Step) -> u32>(
        query: &Vec<u32>,
        candidates: &Vec<Vec<u32>>,
        out: &mut Vec<u32>,
        calc: M,
    ) -> (r: Result<(), Error>)
        ensures
            r is Ok <==> scores_all(
                calc,
                query@,
                candidates@,
                DistanceMetric::Cosine,
                old(out)@.len() as int,
            ),
            r is Err ==> r->Err_0 is InvalidQuery && r->Err_0->InvalidQuery_0@ == scoring_complaint(
                query@,
                candidates@,
                old(out)@.len() as int,
            ),
            final(out)@ == filled(
                calc,
                query@,
                candidates@,
                DistanceMetric::Cosine,
                old(out)@,
                scored_count(
                    calc,
                    query@,
                    candidates@,
                    DistanceMetric::Cosine,
                    old(out)@.len() as int,
                ),
            ),
    {
        let ghost before = out@;
        assert(before =~= filled(calc, query@, candidates@, DistanceMetric::Cosine, before, 0));
        if let Err(e) = validate_batch(query, candidates, out.len()) {
            return Err(e);
        }
        let query_length: u32 = length(query, calc);
        if query_length % vector::SCORE_SIGN == 0 {
            assert(reach(calc, query@, candidates@, DistanceMetric::Cosine, 0) == 0);
            return Err(invalid_query("cosine query and candidate vectors must be non-zero"));
        }
        let mut i: usize = 0;
        while i < candidates.len()
            invariant
                i <= candidates@.len(),
                arithmetic::is_arithmetic(calc),
                before == old(out)@,
                numbers::batch_ok(query@, candidates@, before.len() as int),
                query_length == length_of(calc, query@),
                !arithmetic::is_zero(query_length),
                out@ == filled(
                    calc,
                    query@,
                    candidates@,
                    DistanceMetric::Cosine,
                    before,
                    i as int,
                ),
                reach(calc, query@, candidates@, DistanceMetric::Cosine, 0) == reach(
                    calc,
                    query@,
                    candidates@,
                    DistanceMetric::Cosine,
                    i as int,
                ),
            decreases candidates@.len() - i,
        {
            let candidate_length: u32 = length(&candidates[i], calc);
            if candidate_length % vector::SCORE_SIGN == 0 {
                return Err(invalid_query("cosine query and candidate vectors must be non-zero"));
            }
            let product: u32 = dot(query, &candidates[i], calc);
            let lengths: u32 = compute(calc, Step::Mul(query_length, candidate_length));
            let score: u32 = compute(calc, Step::Div(product, lengths));
            out.set(i, score);
            i = i + 1;
        }
        Ok(())
    }
}

/// Scores many vectors against one, each into its place.
pub fn score_batch<M: Copy + Fn(Step) -> u32>(
    query: &Vec<u32>,
    candidates: &Vec<Vec<u32>>,
    metric: DistanceMetric,
    out: &mut Vec<u32>,
    calc: M,
) -> (r: Result<(), Error>)
    requires
        arithmetic::is_arithmetic(calc),
    ensures
        r is Ok <==> scores_all(calc, query@, candidates@, metric, old(out)@.len() as int),
        r is Err ==> r->Err_0 is InvalidQuery && r->Err_0->InvalidQuery_0@ == scoring_complaint(
            query@,
            candidates@,
            old(out)@.len() as int,
        ),
        final(out)@ == filled(
            calc,
            query@,
            candidates@,
            metric,
            old(out)@,
            scored_count(calc, query@, candidates@, metric, old(out)@.len() as int),
        ),
{
    match metric {
        DistanceMetric::L2 => ScalarDistanceKernel::l2_f32_batch(query, candidates, out, calc),
        DistanceMetric::Dot => ScalarDistanceKernel::dot_f32_batch(query, candidates, out, calc),
        DistanceMetric::Cosine => ScalarDistanceKernel::cosine_f32_batch(
            query,
            candidates,
            out,
            calc,
        ),
    }
}

/// Two vectors can be scored: they have as many components, all finite.
pub open spec fn can_pair(query: Seq<u32>, candidate: Seq<u32>) -> bool {
    &&& candidate.len() == query.len()
    &&& numbers::all_finite(query)
    &&& numbers::all_finite(candidate)
}

/// What scoring two vectors gives: a score where they can be scored, or else a refusal.
pub open spec fn is_scored<M: Fn(Step) -> u32>(
    calc: M,
    query: Seq<u32>,
    candidate: Seq<u32>,
    metric: DistanceMetric,
    r: Result<u32, Error>,
) -> bool {
    match r {
        Ok(s) => can_pair(query, candidate) && pair_score(calc, query, candidate, metric) == Some(
            s,
        ),
        Err(e) => e is InvalidQuery && !(can_pair(query, candidate) && pair_score(
            calc,
            query,
            candidate,
            metric,
        ) is Some),
    }
}

/// A vector can be scored: by cosine it needs a length.
pub open spec fn is_scorable<M: Fn(Step) -> u32>(
    calc: M,
    v: Seq<u32>,
    metric: DistanceMetric,
) -> bool {
    metric is Cosine ==> !arithmetic::is_zero(length_of(calc, v))
}

/// A function scores vectors as [`score`] does.
pub open spec fn is_kernel<
    F: Fn(&Vec<u32>, &Vec<u32>, DistanceMetric) -> Result<u32, Error>,
    M: Fn(Step) -> u32,
>(score: F, calc: M) -> bool {
    forall|a: &Vec<u32>, b: &Vec<u32>, m: DistanceMetric, r: Result<u32, Error>| #[trigger]
        call_ensures(score, (a, b, m), r) ==> is_scored(calc, a@, b@, m, r)
}

/// The score of two vectors.
pub fn score<M: Copy + Fn(Step) -> u32>(
    query: &Vec<u32>,
    candidate: &Vec<u32>,
    metric: DistanceMetric,
    calc: M,
) -> (r: Result<u32, Error>)
    requires
        arithmetic::is_arithmetic(calc),
    ensures
        is_scored(calc, query@, candidate@, metric, r),
{
    let mut candidates: Vec<Vec<u32>> = Vec::new();
    candidates.push(copy_of(candidate));
    let mut out: Vec<u32> = Vec::new();
    out.push(0);
    proof {
        assert(candidates@[0]@ == candidate@);
        reveal_with_fuel(reach, 2);
    }
    match score_batch(query, &candidates, metric, &mut out, calc) {
        Ok(()) => Ok(out[0]),
        Err(e) => Err(e),
    }
}

fn copy_of(v: &Vec<u32>) -> (r: Vec<u32>)
    ensures
        r@ == v@,
{
    let mut r: Vec<u32> = Vec::new();
    let mut i: usize = 0;
    while i < v.len()
        invariant
            i <= v@.len(),
            r@ == v@.subrange(0, i as int),
        decreases v@.len() - i,
    {
        r.push(v[i]);
        i = i + 1;
    }
    r
}

/// How many of the first `n` entries belong to a cluster.
pub open spec fn members(assignments: Seq<usize>, cluster: int, n: int) -> nat
    decreases n,
{
    if n <= 0 {
        0
    } else if assignments[n - 1] == cluster {
        members(assignments, cluster, n - 1) + 1
    } else {
        members(assignments, cluster, n - 1)
    }
}

/// The sum of a component over those of the first `n` entries that belong to a
/// cluster, from the first on.
pub open spec fn component_sum<M: Fn(Step) -> u32>(
    calc: M,
    entries: Seq<VectorEntry>,
    assignments: Seq<usize>,
    cluster: int,
    j: int,
    n: int,
) -> u32
    decreases n,
{
    if n <= 0 {
        0
    } else {
        let before = component_sum(calc, entries, assignments, cluster, j, n - 1);
        if assignments[n - 1] == cluster && j < entries[n - 1].vector@.len() {
            arithmetic::answer(calc, Step::Add(before, entries[n - 1].vector@[j]))
        } else {
            before
        }
    }
}

/// A vector of length one in the same direction; itself where it has no length.
pub open spec fn normalized<M: Fn(Step) -> u32>(calc: M, v: Seq<u32>) -> Seq<u32> {
    if arithmetic::is_zero(length_of(calc, v)) {
        v
    } else {
        Seq::new(
            v.len(),
            |j: int| arithmetic::answer(calc, Step::Div(v[j], length_of(calc, v))),
        )
    }
}

/// How many entries have an assignment.
pub open spec fn assigned(entries: Seq<VectorEntry>, assignments: Seq<usize>) -> int {
    if entries.len() < assignments.len() {
        entries.len() as int
    } else {
        assignments.len() as int
    }
}

/// The centroid of a cluster: the mean of its vectors, of length one where vectors
/// are told apart by their directions. A cluster without vectors keeps its centroid.
pub open spec fn centroid_of<M: Fn(Step) -> u32>(
    calc: M,
    entries: Seq<VectorEntry>,
    assignments: Seq<usize>,
    centroids: Seq<Vec<u32>>,
    metric: DistanceMetric,
    cluster: int,
) -> Seq<u32> {
    let n = assigned(entries, assignments);
    let count = members(assignments, cluster, n);
    if count == 0 {
        centroids[cluster]@
    } else {
        let mean = Seq::new(
            centroids[0]@.len(),
            |j: int|
                arithmetic::answer(
                    calc,
                    Step::Div(
                        component_sum(calc, entries, assignments, cluster, j, n),
                        arithmetic::answer(calc, Step::Count(count as u64)),
                    ),
                ),
        );
        if metric is Cosine {
            normalized(calc, mean)
        } else {
            mean
        }
    }
}

fn normalize<M: Copy + Fn(Step) -> u32>(v: &mut Vec<u32>, calc: M)
    requires
        arithmetic::is_arithmetic(calc),
    ensures
        final(v)@ == normalized(calc, old(v)@),
{
    let ghost before = v@;
    let norm: u32 = length(v, calc);
    if norm % vector::SCORE_SIGN == 0 {
        return;
    }
    let mut j: usize = 0;
    while j < v.len()
        invariant
            j <= v@.len() == before.len(),
            arithmetic::is_arithmetic(calc),
            norm == length_of(calc, before),
            forall|i: int|
                0 <= i < j ==> #[trigger] v@[i] == arithmetic::answer(
                    calc,
                    Step::Div(before[i], norm),
                ),
            forall|i: int| j <= i < before.len() ==> #[trigger] v@[i] == before[i],
        decreases v@.len() - j,
    {
        let x: u32 = compute(calc, Step::Div(v[j], norm));
        v.set(j, x);
        j = j + 1;
    }
    assert(v@ =~= normalized(calc, before));
}

/// The centroid that a cluster moves to.
fn recompute_centroid<M: Copy + Fn(Step) -> u32>(
    entries: &Vec<VectorEntry>,
    assignments: &Vec<usize>,
    centroids: &Vec<Vec<u32>>,
    metric: DistanceMetric,
    cluster: usize,
    calc: M,
) -> (r: Vec<u32>)
    requires
        arithmetic::is_arithmetic(calc),
        cluster < centroids@.len(),
    ensures
        r@ == centroid_of(calc, entries@, assignments@, centroids@, metric, cluster as int),
{
    let dim: usize = centroids[0].len();
    let mut sum: Vec<u32> = Vec::new();
    let mut j: usize = 0;
    while j < dim
        invariant
            j <= dim,
            sum@.len() == j,
            forall|i: int| 0 <= i < j ==> #[trigger] sum@[i] == 0,
        decreases dim - j,
    {
        sum.push(0);
        j = j + 1;
    }
    let mut count: usize = 0;
    let mut n: usize = 0;
    while n < entries.len() && n < assignments.len()
        invariant
            n <= entries@.len(),
            n <= assignments@.len(),
            arithmetic::is_arithmetic(calc),
            count <= n,
            count == members(assignments@, cluster as int, n as int),
            sum@.len() == dim,
            forall|i: int|
                0 <= i < dim ==> #[trigger] sum@[i] == component_sum(
                    calc,
                    entries@,
                    assignments@,
                    cluster as int,
                    i,
                    n as int,
                ),
        decreases entries@.len() - n,
    {
        if assignments[n] == cluster {
            count = count + 1;
            add_vector(&mut sum, &entries[n].vector, calc);
        }
        n = n + 1;
    }
    if count == 0 {
        return copy_of(&centroids[cluster]);
    }
    let whole: u32 = compute(calc, Step::Count(count as u64));
    let ghost sums = sum@;
    let mut j: usize = 0;
    while j < dim
        invariant
            j <= dim,
            sum@.len() == sums.len() == dim,
            arithmetic::is_arithmetic(calc),
            forall|i: int|
                0 <= i < j ==> #[trigger] sum@[i] == arithmetic::answer(
                    calc,
                    Step::Div(sums[i], whole),
                ),
            forall|i: int| j <= i < dim ==> #[trigger] sum@[i] == sums[i],
        decreases dim - j,
    {
        let x: u32 = compute(calc, Step::Div(sum[j], whole));
        sum.set(j, x);
        j = j + 1;
    }
    let ghost mean = Seq::new(
        centroids@[0]@.len(),
        |j: int|
            arithmetic::answer(
                calc,
                Step::Div(
                    component_sum(
                        calc,
                        entries@,
                        assignments@,
                        cluster as int,
                        j,
                        assigned(entries@, assignments@),
                    ),
                    arithmetic::answer(calc, Step::Count(count as u64)),
                ),
            ),
    );
    assert(sum@ =~= mean);
    if metric == DistanceMetric::Cosine {
        normalize(&mut sum, calc);
    }
    sum
}

/// Adds a vector to a sum, component by component.
fn add_vector<M: Copy + Fn(Step) -> u32>(sum: &mut Vec<u32>, v: &Vec<u32>, calc: M)
    requires
        arithmetic::is_arithmetic(calc),
    ensures
        final(sum)@ == Seq::new(
            old(sum)@.len(),
            |i: int|
                if i < v@.len() {
                    arithmetic::answer(calc, Step::Add(old(sum)@[i], v@[i]))
                } else {
                    old(sum)@[i]
                },
        ),
{
    let ghost before = sum@;
    let mut j: usize = 0;
    while j < sum.len() && j < v.len()
        invariant
            j <= sum@.len() == before.len(),
            j <= v@.len(),
            arithmetic::is_arithmetic(calc),
            forall|i: int|
                0 <= i < j ==> #[trigger] sum@[i] == arithmetic::answer(
                    calc,
                    Step::Add(before[i], v@[i]),
                ),
            forall|i: int| j <= i < before.len() ==> #[trigger] sum@[i] == before[i],
        decreases before.len() - j,
    {
        let x: u32 = compute(calc, Step::Add(sum[j], v[j]));
        sum.set(j, x);
        j = j + 1;
    }
}

/// Moves each centroid to the mean of the vectors of its cluster.
pub fn recompute_centroids<M: Copy + Fn(Step) -> u32>(
    entries: &Vec<VectorEntry>,
    assignments: &Vec<usize>,
    centroids: &Vec<Vec<u32>>,
    metric: DistanceMetric,
    calc: M,
) -> (r: Vec<Vec<u32>>)
    requires
        arithmetic::is_arithmetic(calc),
    ensures
        r@.len() == centroids@.len(),
        forall|c: int|
            0 <= c < r@.len() ==> (#[trigger] r@[c])@ == centroid_of(
                calc,
                entries@,
                assignments@,
                centroids@,
                metric,
                c,
            ),
{
    let mut r: Vec<Vec<u32>> = Vec::new();
    let mut c: usize = 0;
    while c < centroids.len()
        invariant
            c <= centroids@.len(),
            r@.len() == c,
            arithmetic::is_arithmetic(calc),
            forall|i: int|
                0 <= i < c ==> (#[trigger] r@[i])@ == centroid_of(
                    calc,
                    entries@,
                    assignments@,
                    centroids@,
                    metric,
                    i,
                ),
        decreases centroids@.len() - c,
    {
        r.push(recompute_centroid(entries, assignments, centroids, metric, c, calc));
        c = c + 1;
    }
    r
}

// ---------------------------------------------------------------------------
// What scores are, where nothing has to be rounded
// ---------------------------------------------------------------------------

/// The inner product of the first `n` components of two vectors of numbers.
pub open spec fn inner_product(a: Seq<u32>, b: Seq<u32>, n: int) -> real
    decreases n,
{
    if n <= 0 {
        0real
    } else {
        inner_product(a, b, n - 1) + rounding::number(a[n - 1]) * rounding::number(b[n - 1])
    }
}

/// The square of the distance of two vectors of numbers, over the first `n` components.
pub open spec fn squared_distance(a: Seq<u32>, b: Seq<u32>, n: int) -> real
    decreases n,
{
    if n <= 0 {
        0real
    } else {
        let d = rounding::number(a[n - 1]) - rounding::number(b[n - 1]);
        squared_distance(a, b, n - 1) + d * d
    }
}

/// The products of the components, and their sums from the first on, have bits.
pub open spec fn products_have_bits(a: Seq<u32>, b: Seq<u32>) -> bool {
    forall|n: int|
        0 < n <= a.len() ==> rounding::has_bits(
            rounding::number(a[n - 1]) * rounding::number(b[n - 1]),
        ) && rounding::has_bits(#[trigger] inner_product(a, b, n))
}

/// The differences of the components, their squares and the sums of these from the first
/// on have bits.
pub open spec fn differences_have_bits(a: Seq<u32>, b: Seq<u32>) -> bool {
    forall|n: int|
        0 < n <= a.len() ==> {
            let d = rounding::number(a[n - 1]) - rounding::number(b[n - 1]);
            &&& rounding::has_bits(d)
            &&& rounding::has_bits(d * d)
            &&& rounding::has_bits(#[trigger] squared_distance(a, b, n))
        }
}

proof fn lemma_dot<M: Fn(Step) -> u32>(calc: M, a: Seq<u32>, b: Seq<u32>, n: int)
    requires
        rounding::rounds(calc),
        0 <= n <= a.len(),
        a.len() == b.len(),
        numbers::all_finite(a),
        numbers::all_finite(b),
        products_have_bits(a, b),
    ensures
        rounding::is_number(dot_of(calc, a, b, n)),
        rounding::number(dot_of(calc, a, b, n)) == inner_product(a, b, n),
    decreases n,
{
    if n <= 0 {
        rounding::lemma_constants();
    } else {
        lemma_dot(calc, a, b, n - 1);
        let x = rounding::number(a[n - 1]) * rounding::number(b[n - 1]);
        assert(rounding::has_bits(inner_product(a, b, n)));
        rounding::lemma_exact_step(calc, Step::Mul(a[n - 1], b[n - 1]), x);
        let product = arithmetic::answer(calc, Step::Mul(a[n - 1], b[n - 1]));
        rounding::lemma_exact_step(
            calc,
            Step::Add(dot_of(calc, a, b, n - 1), product),
            inner_product(a, b, n),
        );
    }
}

proof fn lemma_distance<M: Fn(Step) -> u32>(calc: M, a: Seq<u32>, b: Seq<u32>, n: int)
    requires
        rounding::rounds(calc),
        0 <= n <= a.len(),
        a.len() == b.len(),
        numbers::all_finite(a),
        numbers::all_finite(b),
        differences_have_bits(a, b),
    ensures
        rounding::is_number(distance_of(calc, a, b, n)),
        rounding::number(distance_of(calc, a, b, n)) == squared_distance(a, b, n),
    decreases n,
{
    if n <= 0 {
        rounding::lemma_constants();
    } else {
        lemma_distance(calc, a, b, n - 1);
        let x = rounding::number(a[n - 1]) - rounding::number(b[n - 1]);
        assert(rounding::has_bits(squared_distance(a, b, n)));
        rounding::lemma_exact_step(calc, Step::Sub(a[n - 1], b[n - 1]), x);
        let d = arithmetic::answer(calc, Step::Sub(a[n - 1], b[n - 1]));
        rounding::lemma_exact_step(calc, Step::Mul(d, d), x * x);
        let square = arithmetic::answer(calc, Step::Mul(d, d));
        rounding::lemma_exact_step(
            calc,
            Step::Add(distance_of(calc, a, b, n - 1), square),
            squared_distance(a, b, n),
        );
    }
}

/// The score by inner product is the inner product of the two vectors, and the score by
/// distance is the square of their distance with a minus, so that what is nearer scores
/// higher. This is told of vectors whose products and differences need no rounding.
pub proof fn law_scores_are_products_and_distances<M: Fn(Step) -> u32>(
    calc: M,
    query: Seq<u32>,
    candidate: Seq<u32>,
    dot: Result<u32, Error>,
    l2: Result<u32, Error>,
)
    requires
        rounding::rounds(calc),
        can_pair(query, candidate),
        is_scored(calc, query, candidate, DistanceMetric::Dot, dot),
        is_scored(calc, query, candidate, DistanceMetric::L2, l2),
    ensures
        products_have_bits(query, candidate) ==> dot is Ok && rounding::is_number(dot->Ok_0)
            && rounding::number(dot->Ok_0) == inner_product(query, candidate, query.len() as int),
        differences_have_bits(query, candidate) ==> l2 is Ok && rounding::is_number(l2->Ok_0)
            && rounding::number(l2->Ok_0) == 0real - squared_distance(
            query,
            candidate,
            query.len() as int,
        ),
{
    let n = query.len() as int;
    if products_have_bits(query, candidate) {
        lemma_dot(calc, query, candidate, n);
    }
    if differences_have_bits(query, candidate) {
        lemma_distance(calc, query, candidate, n);
        rounding::lemma_negated(distance_of(calc, query, candidate, n));
    }
}

proof fn lemma_self_distance<M: Fn(Step) -> u32>(calc: M, v: Seq<u32>, n: int)
    requires
        rounding::rounds(calc),
        0 <= n <= v.len(),
        numbers::all_finite(v),
    ensures
        rounding::is_number(distance_of(calc, v, v, n)),
        rounding::number(distance_of(calc, v, v, n)) == 0real,
    decreases n,
{
    rounding::lemma_constants();
    if n > 0 {
        lemma_self_distance(calc, v, n - 1);
        assert(rounding::has_bits(0real));
        rounding::lemma_exact_step(calc, Step::Sub(v[n - 1], v[n - 1]), 0real);
        let d = arithmetic::answer(calc, Step::Sub(v[n - 1], v[n - 1]));
        rounding::lemma_exact_step(calc, Step::Mul(d, d), 0real);
        let square = arithmetic::answer(calc, Step::Mul(d, d));
        rounding::lemma_exact_step(calc, Step::Add(distance_of(calc, v, v, n - 1), square), 0real);
    }
}

/// A vector is at no distance from itself.
pub proof fn law_vector_is_nearest_to_itself<M: Fn(Step) -> u32>(
    calc: M,
    v: Seq<u32>,
    r: Result<u32, Error>,
)
    requires
        rounding::rounds(calc),
        numbers::all_finite(v),
        is_scored(calc, v, v, DistanceMetric::L2, r),
    ensures
        r is Ok,
        rounding::is_number(r->Ok_0),
        rounding::number(r->Ok_0) == 0real,
{
    lemma_self_distance(calc, v, v.len() as int);
    rounding::lemma_negated(distance_of(calc, v, v, v.len() as int));
}

/// A number without sign whose square is the inner product of a vector with itself.
pub open spec fn is_length(v: Seq<u32>, x: real) -> bool {
    x >= 0real && x * x == inner_product(v, v, v.len() as int)
}

proof fn lemma_length<M: Fn(Step) -> u32>(calc: M, v: Seq<u32>, x: real)
    requires
        rounding::rounds(calc),
        numbers::all_finite(v),
        products_have_bits(v, v),
        is_length(v, x),
        rounding::has_bits(x),
    ensures
        rounding::is_number(length_of(calc, v)),
        rounding::number(length_of(calc, v)) == x,
{
    let n = v.len() as int;
    lemma_dot(calc, v, v, n);
    rounding::lemma_exact_step(calc, Step::Sqrt(dot_of(calc, v, v, n)), x);
}

proof fn lemma_square(x: real)
    ensures
        x * x >= 0real,
{
    assert(x * x >= 0real) by (nonlinear_arith);
}

proof fn lemma_spread(s: real, t: real, sum: real, x: real, y: real)
    ensures
        s * t * (sum + x * y) == s * t * sum + (s * x) * (t * y),
{
    let st = s * t;
    let xy = x * y;
    assert(st * (sum + xy) == st * sum + st * xy) by (nonlinear_arith);
    assert((s * t) * (x * y) == (s * x) * (t * y)) by (nonlinear_arith);
}

/// The inner product of two vectors is at most the product of their lengths: for any two
/// numbers the square of the length of one vector taken `s` times less the other taken
/// `t` times is not below zero.
proof fn lemma_combined(a: Seq<u32>, b: Seq<u32>, s: real, t: real, n: int)
    requires
        0 <= n,
    ensures
        s * s * inner_product(a, a, n) - 2real * s * t * inner_product(a, b, n) + t * t
            * inner_product(b, b, n) >= 0real,
    decreases n,
{
    if n > 0 {
        lemma_combined(a, b, s, t, n - 1);
        let x = rounding::number(a[n - 1]);
        let y = rounding::number(b[n - 1]);
        let aa = inner_product(a, a, n - 1);
        let ab = inner_product(a, b, n - 1);
        let bb = inner_product(b, b, n - 1);
        let p = s * x;
        let q = t * y;
        lemma_square(p - q);
        assert((p - q) * (p - q) == p * p - 2real * (p * q) + q * q) by (nonlinear_arith);
        lemma_spread(s, s, aa, x, x);
        lemma_spread(s, t, ab, x, y);
        lemma_spread(t, t, bb, y, y);
        assert(2real * s * t * ab == 2real * (s * t * ab)) by (nonlinear_arith);
        assert(2real * s * t * (ab + x * y) == 2real * (s * t * (ab + x * y)))
            by (nonlinear_arith);
    } else {
        assert(s * s * 0real - 2real * s * t * 0real + t * t * 0real >= 0real) by (nonlinear_arith);
    }
}

proof fn lemma_bounded(area: real, b: real, cosine: real)
    requires
        area > 0real,
        cosine * area == b,
        area * area - area * b >= 0real,
        area * area + area * b >= 0real,
    ensures
        -1real <= cosine <= 1real,
{
    if cosine > 1real {
        let d = cosine - 1real;
        assert(d * area > 0real) by (nonlinear_arith)
            requires
                d > 0real,
                area > 0real,
        ;
        assert((cosine - 1real) * area == cosine * area - area) by (nonlinear_arith);
        let g = b - area;
        assert(area * g > 0real) by (nonlinear_arith)
            requires
                g > 0real,
                area > 0real,
        ;
        assert(area * (b - area) == area * b - area * area) by (nonlinear_arith);
    }
    if cosine < -1real {
        let d = -1real - cosine;
        assert(d * area > 0real) by (nonlinear_arith)
            requires
                d > 0real,
                area > 0real,
        ;
        assert((-1real - cosine) * area == -area - cosine * area) by (nonlinear_arith);
        let g = -area - b;
        assert(area * g > 0real) by (nonlinear_arith)
            requires
                g > 0real,
                area > 0real,
        ;
        assert(area * (-area - b) == -(area * area) - area * b) by (nonlinear_arith);
    }
}

proof fn lemma_at_most_lengths(square: real, other: real, b: real, long: real, wide: real)
    requires
        long * long == square,
        wide * wide == other,
        wide * wide * square - 2real * wide * long * b + long * long * other >= 0real,
        wide * wide * square - 2real * wide * (-long) * b + (-long) * (-long) * other >= 0real,
    ensures
        (long * wide) * (long * wide) - (long * wide) * b >= 0real,
        (long * wide) * (long * wide) + (long * wide) * b >= 0real,
{
    assert(wide * wide * (long * long) == (long * wide) * (long * wide)) by (nonlinear_arith);
    assert(long * long * (wide * wide) == (long * wide) * (long * wide)) by (nonlinear_arith);
    assert((-long) * (-long) == long * long) by (nonlinear_arith);
    let area = long * wide;
    assert(2real * wide * long == 2real * (long * wide)) by (nonlinear_arith);
    assert(2real * wide * (-long) == -(2real * (long * wide))) by (nonlinear_arith);
    assert((2real * area) * b == 2real * (area * b)) by (nonlinear_arith);
    assert((-(2real * area)) * b == -(2real * (area * b))) by (nonlinear_arith);
}

/// The cosine of two vectors is their inner product over the product of both their
/// lengths, rounded once; so it is between minus one and one, and the same either way
/// round. This is told of vectors whose products and lengths need no rounding.
pub proof fn law_cosine_divides_by_both_lengths<M: Fn(Step) -> u32>(
    calc: M,
    query: Seq<u32>,
    candidate: Seq<u32>,
    long: real,
    wide: real,
    cosine: real,
    r: Result<u32, Error>,
)
    requires
        rounding::rounds(calc),
        can_pair(query, candidate),
        products_have_bits(query, candidate),
        products_have_bits(query, query),
        products_have_bits(candidate, candidate),
        is_length(query, long),
        is_length(candidate, wide),
        long > 0real,
        wide > 0real,
        rounding::has_bits(long),
        rounding::has_bits(wide),
        rounding::has_bits(long * wide),
        cosine * (long * wide) == inner_product(query, candidate, query.len() as int),
        is_scored(calc, query, candidate, DistanceMetric::Cosine, r),
    ensures
        r is Ok,
        rounding::is_rounded(cosine, r->Ok_0),
        -1real <= cosine <= 1real,
        -(arithmetic::ONE as int) <= vector::score_place(r->Ok_0) <= arithmetic::ONE,
{
    let n = query.len() as int;
    lemma_dot(calc, query, candidate, n);
    lemma_length(calc, query, long);
    lemma_length(calc, candidate, wide);
    rounding::lemma_zero_bits(length_of(calc, query));
    rounding::lemma_zero_bits(length_of(calc, candidate));
    let lengths = Step::Mul(length_of(calc, query), length_of(calc, candidate));
    rounding::lemma_exact_step(calc, lengths, long * wide);
    assert(long * wide > 0real) by (nonlinear_arith)
        requires
            long > 0real,
            wide > 0real,
    ;
    let quotient = Step::Div(
        dot_of(calc, query, candidate, n),
        arithmetic::answer(calc, lengths),
    );
    assert(rounding::comes_to(quotient, cosine));
    let b = inner_product(query, candidate, n);
    lemma_combined(query, candidate, wide, long, n);
    lemma_combined(query, candidate, wide, -long, n);
    lemma_at_most_lengths(
        inner_product(query, query, n),
        inner_product(candidate, candidate, n),
        b,
        long,
        wide,
    );
    lemma_bounded(long * wide, b, cosine);
    rounding::lemma_constants();
    rounding::lemma_negated(arithmetic::ONE);
    let least = arithmetic::negated(arithmetic::ONE);
    assert(rounding::number(arithmetic::ONE) >= cosine);
    assert(rounding::number(least) <= cosine);
}

/// Two vectors score the same either way round, in any arithmetic in which a product does
/// not depend on the order of its factors.
pub proof fn law_scores_are_symmetric<M: Fn(Step) -> u32>(
    calc: M,
    a: Seq<u32>,
    b: Seq<u32>,
    metric: DistanceMetric,
    there: Result<u32, Error>,
    back: Result<u32, Error>,
)
    requires
        forall|x: u32, y: u32| #[trigger]
            arithmetic::answer(calc, Step::Mul(x, y)) == arithmetic::answer(calc, Step::Mul(y, x)),
        metric is Cosine || metric is Dot,
        is_scored(calc, a, b, metric, there),
        is_scored(calc, b, a, metric, back),
    ensures
        there is Ok <==> back is Ok,
        there is Ok ==> there->Ok_0 == back->Ok_0,
{
    lemma_dot_symmetric(calc, a, b, a.len() as int);
}

proof fn lemma_dot_symmetric<M: Fn(Step) -> u32>(calc: M, a: Seq<u32>, b: Seq<u32>, n: int)
    requires
        forall|x: u32, y: u32| #[trigger]
            arithmetic::answer(calc, Step::Mul(x, y)) == arithmetic::answer(calc, Step::Mul(y, x)),
    ensures
        dot_of(calc, a, b, n) == dot_of(calc, b, a, n),
    decreases n,
{
    if n > 0 {
        lemma_dot_symmetric(calc, a, b, n - 1);
    }
}

/// A cluster with a single vector has it for its centroid, however it was before, and one
/// without vectors keeps its centroid. This is told where nothing is scaled to length
/// one.
pub proof fn law_single_vector_is_the_centroid<M: Fn(Step) -> u32>(
    calc: M,
    entries: Seq<VectorEntry>,
    assignments: Seq<usize>,
    centroids: Seq<Vec<u32>>,
    metric: DistanceMetric,
    cluster: int,
    only: int,
    j: int,
)
    requires
        rounding::rounds(calc),
        !(metric is Cosine),
        entries.len() == assignments.len(),
        entries.len() < 0x100_0000,
        0 <= cluster < centroids.len(),
        0 <= only < entries.len(),
        0 <= j < centroids[0]@.len(),
        entries[only].vector@.len() == centroids[0]@.len(),
        rounding::is_number(entries[only].vector@[j]),
    ensures
        (forall|i: int|
            0 <= i < assignments.len() ==> ((#[trigger] assignments[i]) == cluster <==> i == only))
            ==> {
            let c = centroid_of(calc, entries, assignments, centroids, metric, cluster);
            &&& c.len() == centroids[0]@.len()
            &&& rounding::is_number(c[j])
            &&& rounding::number(c[j]) == rounding::number(entries[only].vector@[j])
        },
        (forall|i: int| 0 <= i < assignments.len() ==> (#[trigger] assignments[i]) != cluster)
            ==> centroid_of(calc, entries, assignments, centroids, metric, cluster)
            == centroids[cluster]@,
{
    let n = entries.len() as int;
    if forall|i: int|
        0 <= i < assignments.len() ==> ((#[trigger] assignments[i]) == cluster <==> i == only) {
        lemma_single(calc, entries, assignments, cluster, only, j, n);
        let x = rounding::number(entries[only].vector@[j]);
        rounding::lemma_count(calc, 1);
        let sum = component_sum(calc, entries, assignments, cluster, j, n);
        let one = arithmetic::answer(calc, Step::Count(1));
        assert(rounding::has_bits(x));
        assert(x * 1real == x) by (nonlinear_arith);
        assert(1u64 as real == 1real);
        rounding::lemma_exact_step(calc, Step::Div(sum, one), x);
    }
    if forall|i: int| 0 <= i < assignments.len() ==> (#[trigger] assignments[i]) != cluster {
        lemma_no_members(assignments, cluster, n);
    }
}

proof fn lemma_no_members(assignments: Seq<usize>, cluster: int, n: int)
    requires
        0 <= n <= assignments.len(),
        forall|i: int| 0 <= i < n ==> (#[trigger] assignments[i]) != cluster,
    ensures
        members(assignments, cluster, n) == 0,
    decreases n,
{
    if n > 0 {
        lemma_no_members(assignments, cluster, n - 1);
    }
}

proof fn lemma_single<M: Fn(Step) -> u32>(
    calc: M,
    entries: Seq<VectorEntry>,
    assignments: Seq<usize>,
    cluster: int,
    only: int,
    j: int,
    n: int,
)
    requires
        rounding::rounds(calc),
        entries.len() == assignments.len(),
        0 <= only < entries.len(),
        0 <= n <= entries.len(),
        0 <= j < entries[only].vector@.len(),
        rounding::is_number(entries[only].vector@[j]),
        forall|i: int|
            0 <= i < assignments.len() ==> ((#[trigger] assignments[i]) == cluster <==> i == only),
    ensures
        members(assignments, cluster, n) == (if only < n {
            1nat
        } else {
            0
        }),
        rounding::is_number(component_sum(calc, entries, assignments, cluster, j, n)),
        rounding::number(component_sum(calc, entries, assignments, cluster, j, n)) == (if only < n {
            rounding::number(entries[only].vector@[j])
        } else {
            0real
        }),
    decreases n,
{
    rounding::lemma_zeros(0);
    if n > 0 {
        lemma_single(calc, entries, assignments, cluster, only, j, n - 1);
        assert(assignments[n - 1] == cluster <==> n - 1 == only);
        if n - 1 == only {
            let x = rounding::number(entries[only].vector@[j]);
            assert(rounding::has_bits(x));
            let before = component_sum(calc, entries, assignments, cluster, j, n - 1);
            rounding::lemma_exact_step(
                calc,
                Step::Add(before, entries[only].vector@[j]),
                x,
            );
        }
    }
}

/// The centroid of two vectors is in the middle of them, where nothing needs rounding:
/// twice it is their sum.
pub proof fn law_centroid_of_two_is_in_the_middle<M: Fn(Step) -> u32>(
    calc: M,
    entries: Seq<VectorEntry>,
    assignments: Seq<usize>,
    centroids: Seq<Vec<u32>>,
    metric: DistanceMetric,
    cluster: usize,
    j: int,
    middle: real,
)
    requires
        rounding::rounds(calc),
        !(metric is Cosine),
        entries.len() == 2,
        assignments == seq![cluster, cluster],
        0 <= cluster < centroids.len(),
        0 <= j < centroids[0]@.len(),
        entries[0].vector@.len() == centroids[0]@.len(),
        entries[1].vector@.len() == centroids[0]@.len(),
        rounding::is_number(entries[0].vector@[j]),
        rounding::is_number(entries[1].vector@[j]),
        rounding::has_bits(
            rounding::number(entries[0].vector@[j]) + rounding::number(entries[1].vector@[j]),
        ),
        middle * 2real == rounding::number(entries[0].vector@[j]) + rounding::number(
            entries[1].vector@[j],
        ),
    ensures
        rounding::is_rounded(
            middle,
            centroid_of(calc, entries, assignments, centroids, metric, cluster as int)[j],
        ),
{
    let c = cluster as int;
    let a = entries[0].vector@[j];
    let b = entries[1].vector@[j];
    reveal_with_fuel(members, 3);
    reveal_with_fuel(component_sum, 3);
    assert(members(assignments, c, 2) == 2);
    rounding::lemma_zeros(0);
    let first = arithmetic::answer(calc, Step::Add(0, a));
    assert(rounding::has_bits(rounding::number(a)));
    rounding::lemma_exact_step(calc, Step::Add(0, a), rounding::number(a));
    rounding::lemma_exact_step(
        calc,
        Step::Add(first, b),
        rounding::number(a) + rounding::number(b),
    );
    let sum = arithmetic::answer(calc, Step::Add(first, b));
    assert(component_sum(calc, entries, assignments, c, j, 2) == sum);
    rounding::lemma_count(calc, 2);
    assert(2u64 as real == 2real);
    let two = arithmetic::answer(calc, Step::Count(2));
    assert(rounding::comes_to(Step::Div(sum, two), middle));
}

/// Scaling a vector to length one divides every coordinate by the length and keeps the
/// direction; a vector without length stays as it is.
pub proof fn law_scaled_vector_times_its_length<M: Fn(Step) -> u32>(
    calc: M,
    v: Seq<u32>,
    j: int,
    x: real,
)
    requires
        rounding::rounds(calc),
        0 <= j < v.len(),
        rounding::is_number(v[j]),
        rounding::is_number(length_of(calc, v)),
        x * rounding::number(length_of(calc, v)) == rounding::number(v[j]),
    ensures
        normalized(calc, v).len() == v.len(),
        rounding::number(length_of(calc, v)) != 0real ==> rounding::is_rounded(
            x,
            normalized(calc, v)[j],
        ),
        rounding::number(length_of(calc, v)) == 0real ==> normalized(calc, v) == v,
{
    let length = length_of(calc, v);
    rounding::lemma_zero_bits(length);
    if rounding::number(length) != 0real {
        assert(rounding::comes_to(Step::Div(v[j], length), x));
    }
}

/// Candidates are scored one by one up to the first without a score: all before it have
/// one, and it has none.
pub proof fn law_scoring_stops_at_the_first_without_a_score<M: Fn(Step) -> u32>(
    calc: M,
    query: Seq<u32>,
    candidates: Seq<Vec<u32>>,
    metric: DistanceMetric,
    i: int,
)
    requires
        0 <= i <= candidates.len(),
    ensures
        ({
            let n = reach(calc, query, candidates, metric, i);
            &&& i <= n <= candidates.len()
            &&& forall|k: int|
                i <= k < n ==> pair_score(
                    calc,
                    query,
                    (#[trigger] candidates[k])@,
                    metric,
                ) is Some
            &&& n < candidates.len() ==> pair_score(calc, query, candidates[n]@, metric) is None
        }),
    decreases candidates.len() - i,
{
    if i < candidates.len() && pair_score(calc, query, candidates[i]@, metric) is Some {
        law_scoring_stops_at_the_first_without_a_score(calc, query, candidates, metric, i + 1);
    }
}

} // verus!
