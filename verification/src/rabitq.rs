//! One-bit codes of vectors: for every vector of a cluster the signs of its
//! rotated residual, with the two numbers that estimating a distance needs.
//!
//! The rotation turns signs over at random and then mixes all coordinates by a
//! Walsh-Hadamard transform. Numbers are held by their bits; each single operation
//! on them is the caller's, and which ones are carried out, in which order, is
//! settled here.

use vstd::arithmetic::div_mod;
use vstd::prelude::*;
use vstd::utf8::encode_utf8;

use crate::rounding;
use crate::arithmetic;
use crate::arithmetic::{compute, negate, Step, NEGATIVE_ZERO, ONE, TWO};
use crate::error::{corrupt, Error};
use crate::hash;
use crate::hash::{fnv1a_continue, splitmix64};
use crate::schema::DistanceMetric;
use crate::value::{copy_id, Id};
use crate::vector;
use crate::vector::mask;
use crate::vector::mask::{set_bit, words_for_rows, zero_words};
use crate::vector::{score_beats, VectorEntry, VectorIndex};

pub mod packed;

verus! {

// ---------------------------------------------------------------------------
// Sizes and seeds
// ---------------------------------------------------------------------------

/// A power of two.
pub open spec fn is_power_of_two(n: int) -> bool
    decreases n,
{
    n == 1 || (n > 1 && n % 2 == 0 && is_power_of_two(n / 2))
}

/// A smaller power of two divides a larger one at least twice.
proof fn lemma_powers_divide(n: int, h: int)
    requires
        is_power_of_two(n),
        is_power_of_two(h),
        h < n,
    ensures
        n % (2 * h) == 0,
        2 * h <= n,
    decreases n,
{
    if h > 1 {
        lemma_powers_divide(n / 2, h / 2);
        let m = n / 2;
        let g = h / 2;
        assert(2 * g == h && 2 * m == n);
        div_mod::lemma_fundamental_div_mod(m, 2 * g);
        let q = m / (2 * g);
        assert(m == (2 * g) * q);
        assert(n == (2 * h) * q) by (nonlinear_arith)
            requires
                n == 2 * m,
                m == (2 * g) * q,
                h == 2 * g,
        ;
        div_mod::lemma_fundamental_div_mod_converse(n, 2 * h, q, 0);
    }
}

/// The smallest power of two that is at least `dim`, and at least one.
pub fn padded_dim(dim: usize) -> (n: usize)
    requires
        dim <= usize::MAX / 2,
    ensures
        is_power_of_two(n as int),
        dim <= n,
        n == 1 || n < 2 * dim,
{
    let mut n: usize = 1;
    while n < dim
        invariant
            dim <= usize::MAX / 2,
            is_power_of_two(n as int),
            n == 1 || n < 2 * dim,
        decreases usize::MAX - n,
    {
        assert((2 * n) / 2 == n && (2 * n) % 2 == 0);
        assert(is_power_of_two(2 * n as int));
        n = 2 * n;
    }
    n
}

/// The seed of the rotation of a cluster.
pub open spec fn seed_of(column: Seq<char>, centroid_id: u32) -> u64 {
    hash::splitmix64_of(hash::fnv1a(hash::FNV_OFFSET, encode_utf8(column)) ^ (centroid_id as u64))
}

/// The seed of the rotation of a cluster.
pub fn transform_seed(column: &str, centroid_id: u32) -> (seed: u64)
    ensures
        seed == seed_of(column@, centroid_id),
{
    let h: u64 = fnv1a_continue(hash::FNV_OFFSET, column.as_bytes());
    splitmix64(h ^ (centroid_id as u64))
}

// ---------------------------------------------------------------------------
// The rotation
// ---------------------------------------------------------------------------

/// A coordinate whose sign the rotation turns over.
pub open spec fn is_flipped(seed: u64, dim: int) -> bool {
    hash::splitmix64_of(seed ^ (dim as u64)) % 2 == 1
}

/// Coordinates with some signs turned over.
pub open spec fn flipped(data: Seq<u32>, seed: u64) -> Seq<u32> {
    Seq::new(
        data.len(),
        |i: int|
            if is_flipped(seed, i) {
                arithmetic::negated(data[i])
            } else {
                data[i]
            },
    )
}

/// A stage of the transform: sums and differences of coordinates `h` apart.
pub open spec fn mixed<M: Fn(Step) -> u32>(calc: M, data: Seq<u32>, h: int) -> Seq<u32> {
    Seq::new(
        data.len(),
        |j: int|
            if (j / h) % 2 == 0 {
                arithmetic::answer(calc, Step::Add(data[j], data[j + h]))
            } else {
                arithmetic::answer(calc, Step::Sub(data[j - h], data[j]))
            },
    )
}

/// The transform from the stage with distance `h` on.
pub open spec fn transformed<M: Fn(Step) -> u32>(calc: M, data: Seq<u32>, h: int) -> Seq<u32>
    decreases
            if h < data.len() {
                data.len() - h
            } else {
                0
            },
{
    if h <= 0 || h >= data.len() {
        data
    } else {
        transformed(calc, mixed(calc, data, h), 2 * h)
    }
}

/// Coordinates, each multiplied by the same number.
pub open spec fn scaled<M: Fn(Step) -> u32>(calc: M, data: Seq<u32>, scale: u32) -> Seq<u32> {
    Seq::new(data.len(), |i: int| arithmetic::answer(calc, Step::Mul(data[i], scale)))
}

/// The square root of a whole number.
pub open spec fn root<M: Fn(Step) -> u32>(calc: M, n: int) -> u32 {
    arithmetic::answer(calc, Step::Sqrt(arithmetic::answer(calc, Step::Count(n as u64))))
}

/// The rotation of a cluster.
pub open spec fn rotated<M: Fn(Step) -> u32>(calc: M, data: Seq<u32>, seed: u64) -> Seq<u32> {
    scaled(
        calc,
        transformed(calc, flipped(data, seed), 1),
        arithmetic::answer(calc, Step::Div(ONE, root(calc, data.len() as int))),
    )
}

proof fn lemma_even_half(q: int, h: int, k: int)
    requires
        h > 0,
        q >= 0,
        2 * h * q <= k < 2 * h * q + h,
    ensures
        (k / h) % 2 == 0,
        ((k + h) / h) % 2 == 1,
{
    assert(2 * h * q == (2 * q) * h) by (nonlinear_arith);
    div_mod::lemma_fundamental_div_mod_converse(k, h, 2 * q, k - 2 * h * q);
    assert((2 * q + 1) * h == (2 * q) * h + h) by (nonlinear_arith);
    div_mod::lemma_fundamental_div_mod_converse(k + h, h, 2 * q + 1, k - 2 * h * q);
}

/// Mixes coordinates `h` apart.
fn mix<M: Copy + Fn(Step) -> u32>(data: &mut Vec<u32>, h: usize, calc: M)
    requires
        arithmetic::is_arithmetic(calc),
        0 < h < old(data)@.len(),
        old(data)@.len() % (2 * h as nat) == 0,
        2 * h <= old(data)@.len(),
    ensures
        final(data)@ == mixed(calc, old(data)@, h as int),
{
    let ghost start = data@;
    let ghost goal = mixed(calc, start, h as int);
    let n = data.len();
    let mut i: usize = 0;
    let ghost mut q: int = 0;
    while i < n
        invariant
            arithmetic::is_arithmetic(calc),
            n == start.len(),
            data@.len() == n,
            goal == mixed(calc, start, h as int),
            0 < h,
            2 * h <= n,
            start.len() % (2 * h as nat) == 0,
            q >= 0,
            i == 2 * h * q,
            i <= n,
            forall|k: int| 0 <= k < i ==> #[trigger] data@[k] == goal[k],
            forall|k: int| i <= k < n ==> #[trigger] data@[k] == start[k],
        decreases n - i,
    {
        proof {
            let m = n as int / (2 * h as int);
            div_mod::lemma_fundamental_div_mod(n as int, 2 * h as int);
            assert(n == (2 * h) * m);
            assert(q + 1 <= m) by (nonlinear_arith)
                requires
                    2 * h * q < 2 * h * m,
                    h > 0,
            ;
            assert(2 * h * q + 2 * h <= n) by (nonlinear_arith)
                requires
                    q + 1 <= m,
                    n == (2 * h) * m,
                    h > 0,
            ;
        }
        let mut j: usize = i;
        while j < i + h
            invariant
                arithmetic::is_arithmetic(calc),
                n == start.len(),
                data@.len() == n,
                goal == mixed(calc, start, h as int),
                0 < h,
                q >= 0,
                i == 2 * h * q,
                i + 2 * h <= n,
                i <= j <= i + h,
                forall|k: int| 0 <= k < j ==> #[trigger] data@[k] == goal[k],
                forall|k: int| j <= k < i + h ==> #[trigger] data@[k] == start[k],
                forall|k: int| i + h <= k < j + h ==> #[trigger] data@[k] == goal[k],
                forall|k: int| j + h <= k < n ==> #[trigger] data@[k] == start[k],
            decreases i + h - j,
        {
            proof {
                lemma_even_half(q, h as int, j as int);
            }
            let x: u32 = data[j];
            let y: u32 = data[j + h];
            let sum: u32 = compute(calc, Step::Add(x, y));
            let difference: u32 = compute(calc, Step::Sub(x, y));
            data.set(j, sum);
            data.set(j + h, difference);
            assert(goal[j as int] == sum);
            assert(goal[j + h] == difference);
            j = j + 1;
        }
        i = i + 2 * h;
        proof {
            assert(2 * h * (q + 1) == 2 * h * q + 2 * h) by (nonlinear_arith);
            q = q + 1;
        }
    }
    assert(data@ =~= goal);
}

/// Transforms coordinates in place.
pub fn walsh_hadamard<M: Copy + Fn(Step) -> u32>(data: &mut Vec<u32>, calc: M)
    requires
        arithmetic::is_arithmetic(calc),
        is_power_of_two(old(data)@.len() as int),
    ensures
        final(data)@ == transformed(calc, old(data)@, 1),
        final(data)@.len() == old(data)@.len(),
{
    let ghost start = data@;
    let n = data.len();
    let mut h: usize = 1;
    while h < n
        invariant
            arithmetic::is_arithmetic(calc),
            n == data@.len(),
            n == start.len(),
            is_power_of_two(n as int),
            is_power_of_two(h as int),
            h <= n,
            transformed(calc, data@, h as int) == transformed(calc, start, 1),
        decreases n - h,
    {
        proof {
            lemma_powers_divide(n as int, h as int);
            assert((2 * h) / 2 == h && (2 * h) % 2 == 0);
        }
        mix(data, h, calc);
        h = 2 * h;
    }
}

/// Rotates coordinates in place.
pub fn rotate<M: Copy + Fn(Step) -> u32>(data: &mut Vec<u32>, seed: u64, calc: M)
    requires
        arithmetic::is_arithmetic(calc),
        is_power_of_two(old(data)@.len() as int),
    ensures
        final(data)@ == rotated(calc, old(data)@, seed),
        final(data)@.len() == old(data)@.len(),
{
    let ghost start = data@;
    let n = data.len();
    let mut i: usize = 0;
    while i < n
        invariant
            i <= n,
            n == data@.len(),
            n == start.len(),
            forall|k: int| 0 <= k < i ==> #[trigger] data@[k] == flipped(start, seed)[k],
            forall|k: int| i <= k < n ==> #[trigger] data@[k] == start[k],
        decreases n - i,
    {
        if splitmix64(seed ^ (i as u64)) % 2 == 1 {
            let value: u32 = negate(data[i]);
            data.set(i, value);
        }
        i = i + 1;
    }
    assert(data@ =~= flipped(start, seed));
    walsh_hadamard(data, calc);
    let ghost mid = data@;
    let count: u32 = compute(calc, Step::Count(n as u64));
    let length: u32 = compute(calc, Step::Sqrt(count));
    let scale: u32 = compute(calc, Step::Div(ONE, length));
    let mut j: usize = 0;
    while j < n
        invariant
            arithmetic::is_arithmetic(calc),
            j <= n,
            n == data@.len(),
            n == mid.len(),
            forall|k: int| 0 <= k < j ==> #[trigger] data@[k] == scaled(calc, mid, scale)[k],
            forall|k: int| j <= k < n ==> #[trigger] data@[k] == mid[k],
        decreases n - j,
    {
        let value: u32 = compute(calc, Step::Mul(data[j], scale));
        data.set(j, value);
        j = j + 1;
    }
    assert(data@ =~= scaled(calc, mid, scale));
}

// ---------------------------------------------------------------------------
// Codes
// ---------------------------------------------------------------------------

/// The code of a vector.
#[derive(Debug)]
pub struct RabitqCode {
    pub id: Id,
    pub local_id: u32,
    pub version: u64,
    /// How long the residual is.
    pub residual_norm: u32,
    /// The inner product of the rotated residual, at unit length, with its code.
    pub dot_code: u32,
    /// One bit per coordinate: whether the rotated residual is positive there.
    pub code_words: Vec<u64>,
}

/// The codes of a cluster.
#[derive(Debug)]
pub struct RabitqCluster {
    pub centroid_id: u32,
    pub transform_seed: u64,
    pub codes: Vec<RabitqCode>,
}

/// The codes of an index.
#[derive(Debug)]
pub struct RabitqIndex {
    pub column: String,
    pub dim: usize,
    pub padded_dim: usize,
    pub metric: DistanceMetric,
    pub clusters: Vec<RabitqCluster>,
}

/// The residual of a vector, with zeros up to some length.
pub open spec fn residual<M: Fn(Step) -> u32>(
    calc: M,
    v: Seq<u32>,
    centroid: Seq<u32>,
    length: int,
) -> Seq<u32> {
    Seq::new(
        length as nat,
        |d: int|
            if d < v.len() {
                arithmetic::answer(calc, Step::Sub(v[d], centroid[d]))
            } else {
                0
            },
    )
}

/// A number and the squares of the first `n` coordinates, summed from the first on.
pub open spec fn square_sum<M: Fn(Step) -> u32>(
    calc: M,
    start: u32,
    data: Seq<u32>,
    n: int,
) -> u32
    decreases n,
{
    if n <= 0 {
        start
    } else {
        arithmetic::answer(
            calc,
            Step::Add(
                square_sum(calc, start, data, n - 1),
                arithmetic::answer(calc, Step::Mul(data[n - 1], data[n - 1])),
            ),
        )
    }
}

/// The sum of the first `n` coordinates, without signs.
pub open spec fn magnitude_sum<M: Fn(Step) -> u32>(calc: M, data: Seq<u32>, n: int) -> u32
    decreases n,
{
    if n <= 0 {
        0
    } else {
        arithmetic::answer(
            calc,
            Step::Add(magnitude_sum(calc, data, n - 1), arithmetic::magnitude(data[n - 1])),
        )
    }
}

/// Coordinates, each divided by the same number.
pub open spec fn divided<M: Fn(Step) -> u32>(calc: M, data: Seq<u32>, by: u32) -> Seq<u32> {
    Seq::new(data.len(), |i: int| arithmetic::answer(calc, Step::Div(data[i], by)))
}

/// Words with one bit per coordinate, set where it is positive.
pub open spec fn holds_signs(words: Seq<u64>, data: Seq<u32>) -> bool {
    &&& words.len() == mask::words_needed(data.len() as int)
    &&& forall|d: int| #[trigger]
        mask::bit_at(words, d) == (0 <= d < data.len() && vector::beats(data[d], 0))
}

/// The numbers and bits of a code are those of a vector.
pub open spec fn is_code_of<M: Fn(Step) -> u32>(
    calc: M,
    v: Seq<u32>,
    centroid: Seq<u32>,
    seed: u64,
    padded: int,
    code: RabitqCode,
) -> bool {
    let r = residual(calc, v, centroid, padded);
    let norm = arithmetic::answer(calc, Step::Sqrt(square_sum(calc, 0, r, v.len() as int)));
    if arithmetic::is_zero(norm) {
        &&& code.residual_norm == 0
        &&& code.dot_code == 0
        &&& code.code_words@.len() == mask::words_needed(padded)
        &&& forall|d: int| !#[trigger] mask::bit_at(code.code_words@, d)
    } else {
        let turned = rotated(calc, divided(calc, r, norm), seed);
        &&& code.residual_norm == norm
        &&& code.dot_code == arithmetic::answer(
            calc,
            Step::Div(magnitude_sum(calc, turned, padded), root(calc, padded)),
        )
        &&& holds_signs(code.code_words@, turned)
    }
}

/// Encodes a vector of a cluster.
#[verifier::spinoff_prover]
fn encode<M: Copy + Fn(Step) -> u32>(
    entry: &VectorEntry,
    centroid: &Vec<u32>,
    seed: u64,
    padded: usize,
    calc: M,
) -> (code: RabitqCode)
    requires
        arithmetic::is_arithmetic(calc),
        entry.vector@.len() == centroid@.len(),
        entry.vector@.len() <= padded,
        is_power_of_two(padded as int),
    ensures
        code.id@ == entry.id@,
        code.local_id == entry.local_id,
        code.version == entry.version,
        is_code_of(calc, entry.vector@, centroid@, seed, padded as int, code),
{
    let ghost v = entry.vector@;
    let ghost r = residual(calc, v, centroid@, padded as int);
    let mut data: Vec<u32> = Vec::new();
    let mut sum: u32 = 0;
    let mut d: usize = 0;
    while d < padded
        invariant
            arithmetic::is_arithmetic(calc),
            d <= padded,
            v == entry.vector@,
            v.len() == centroid@.len(),
            v.len() <= padded,
            r == residual(calc, v, centroid@, padded as int),
            data@ == r.take(d as int),
            sum == square_sum(calc, 0, r, if d < v.len() { d as int } else { v.len() as int }),
        decreases padded - d,
    {
        let value: u32 = if d < entry.vector.len() {
            let x: u32 = compute(calc, Step::Sub(entry.vector[d], centroid[d]));
            let square: u32 = compute(calc, Step::Mul(x, x));
            sum = compute(calc, Step::Add(sum, square));
            x
        } else {
            0
        };
        assert(value == r[d as int]);
        data.push(value);
        assert(r.take(d + 1) =~= r.take(d as int).push(r[d as int]));
        d = d + 1;
    }
    assert(r.take(padded as int) =~= r);
    let norm: u32 = compute(calc, Step::Sqrt(sum));
    let mut code_words = zero_words(words_for_rows(padded));
    if norm % vector::SCORE_SIGN == 0 {
        return RabitqCode {
            id: copy_id(&entry.id),
            local_id: entry.local_id,
            version: entry.version,
            residual_norm: 0,
            dot_code: 0,
            code_words,
        };
    }
    let ghost unit = divided(calc, r, norm);
    let mut i: usize = 0;
    while i < padded
        invariant
            arithmetic::is_arithmetic(calc),
            i <= padded,
            r.len() == padded,
            data@.len() == padded,
            unit == divided(calc, r, norm),
            forall|k: int| 0 <= k < i ==> #[trigger] data@[k] == unit[k],
            forall|k: int| i <= k < padded ==> #[trigger] data@[k] == r[k],
        decreases padded - i,
    {
        let value: u32 = compute(calc, Step::Div(data[i], norm));
        data.set(i, value);
        i = i + 1;
    }
    assert(data@ =~= unit);
    rotate(&mut data, seed, calc);
    let ghost turned = data@;
    let mut total: u32 = 0;
    let mut b: usize = 0;
    while b < padded
        invariant
            arithmetic::is_arithmetic(calc),
            b <= padded,
            data@ == turned,
            turned.len() == padded,
            code_words@.len() == mask::words_needed(padded as int),
            total == magnitude_sum(calc, turned, b as int),
            forall|k: int| #[trigger]
                mask::bit_at(code_words@, k) == (0 <= k < b && vector::beats(turned[k], 0)),
        decreases padded - b,
    {
        total = compute(calc, Step::Add(total, data[b] % vector::SCORE_SIGN));
        if score_beats(data[b], 0) {
            set_bit(&mut code_words, b);
        }
        b = b + 1;
    }
    let count: u32 = compute(calc, Step::Count(padded as u64));
    let length: u32 = compute(calc, Step::Sqrt(count));
    let dot: u32 = compute(calc, Step::Div(total, length));
    RabitqCode {
        id: copy_id(&entry.id),
        local_id: entry.local_id,
        version: entry.version,
        residual_norm: norm,
        dot_code: dot,
        code_words,
    }
}

/// The first `n` codes of a cluster are those of its vectors.
pub open spec fn codes_ok<M: Fn(Step) -> u32>(
    calc: M,
    entries: Seq<VectorEntry>,
    centroid: Seq<u32>,
    seed: u64,
    padded: int,
    codes: Seq<RabitqCode>,
) -> bool {
    forall|i: int|
        0 <= i < codes.len() ==> (#[trigger] codes[i]).id@ == entries[i].id@ && codes[i].local_id
            == entries[i].local_id && codes[i].version == entries[i].version && is_code_of(
            calc,
            entries[i].vector@,
            centroid,
            seed,
            padded,
            codes[i],
        )
}

/// A cluster has a centroid, and it and its vectors have the right length.
pub open spec fn cluster_fits(index: VectorIndex, c: int) -> bool {
    let posting = index.postings@[c];
    &&& posting.centroid_id < index.centroids@.len()
    &&& index.centroids@[posting.centroid_id as int]@.len() == index.dim
    &&& forall|i: int|
        0 <= i < posting.vectors@.len() ==> (#[trigger] posting.vectors@[i]).vector@.len()
            == index.dim
}

/// Every cluster fits.
pub open spec fn index_fits(index: VectorIndex) -> bool {
    forall|c: int| 0 <= c < index.postings@.len() ==> #[trigger] cluster_fits(index, c)
}

/// The codes of a cluster of an index.
pub open spec fn is_coded_cluster<M: Fn(Step) -> u32>(
    calc: M,
    index: VectorIndex,
    c: int,
    padded: int,
    cluster: RabitqCluster,
) -> bool {
    let posting = index.postings@[c];
    &&& cluster.centroid_id == posting.centroid_id
    &&& cluster.transform_seed == seed_of(index.column@, posting.centroid_id)
    &&& cluster.codes@.len() == posting.vectors@.len()
    &&& codes_ok(
        calc,
        posting.vectors@,
        index.centroids@[posting.centroid_id as int]@,
        cluster.transform_seed,
        padded,
        cluster.codes@,
    )
}

fn encode_cluster<M: Copy + Fn(Step) -> u32>(
    index: &VectorIndex,
    c: usize,
    padded: usize,
    calc: M,
) -> (r: Result<RabitqCluster, Error>)
    requires
        arithmetic::is_arithmetic(calc),
        c < index.postings@.len(),
        index.dim <= padded,
        is_power_of_two(padded as int),
    ensures
        match r {
            Ok(cluster) => cluster_fits(*index, c as int) && is_coded_cluster(
                calc,
                *index,
                c as int,
                padded as int,
                cluster,
            ),
            Err(e) => e is Corrupt && !cluster_fits(*index, c as int),
        },
{
    let posting = &index.postings[c];
    if posting.centroid_id as usize >= index.centroids.len() {
        return Err(corrupt("vector posting id out of bounds"));
    }
    let centroid = &index.centroids[posting.centroid_id as usize];
    if centroid.len() != index.dim {
        return Err(corrupt("RaBitQ centroid dimension mismatch"));
    }
    let seed: u64 = transform_seed(index.column.as_str(), posting.centroid_id);
    let mut codes: Vec<RabitqCode> = Vec::new();
    let mut i: usize = 0;
    while i < posting.vectors.len()
        invariant
            arithmetic::is_arithmetic(calc),
            i <= posting.vectors@.len(),
            c < index.postings@.len(),
            *posting == index.postings@[c as int],
            posting.centroid_id < index.centroids@.len(),
            *centroid == index.centroids@[posting.centroid_id as int],
            centroid@.len() == index.dim,
            index.dim <= padded,
            is_power_of_two(padded as int),
            codes@.len() == i,
            forall|k: int|
                0 <= k < i ==> (#[trigger] posting.vectors@[k]).vector@.len() == index.dim,
            codes_ok(calc, posting.vectors@, centroid@, seed, padded as int, codes@),
        decreases posting.vectors@.len() - i,
    {
        let entry = &posting.vectors[i];
        if entry.vector.len() != index.dim {
            return Err(corrupt("RaBitQ vector dimension mismatch"));
        }
        let code = encode(entry, centroid, seed, padded, calc);
        codes.push(code);
        i = i + 1;
    }
    Ok(RabitqCluster { centroid_id: posting.centroid_id, transform_seed: seed, codes })
}

/// Encodes every vector of an index.
pub fn build_index<M: Copy + Fn(Step) -> u32>(index: &VectorIndex, calc: M) -> (r: Result<
    RabitqIndex,
    Error,
>)
    requires
        arithmetic::is_arithmetic(calc),
        index.dim <= usize::MAX / 2,
    ensures
        match r {
            Ok(built) => {
                &&& index_fits(*index)
                &&& built.column@ == index.column@
                &&& built.dim == index.dim
                &&& built.metric == index.metric
                &&& is_power_of_two(built.padded_dim as int)
                &&& index.dim <= built.padded_dim
                &&& built.padded_dim == 1 || built.padded_dim < 2 * index.dim
                &&& built.clusters@.len() == index.postings@.len()
                &&& forall|c: int|
                    0 <= c < built.clusters@.len() ==> is_coded_cluster(
                        calc,
                        *index,
                        c,
                        built.padded_dim as int,
                        #[trigger] built.clusters@[c],
                    )
            },
            Err(e) => e is Corrupt && !index_fits(*index),
        },
{
    let padded: usize = padded_dim(index.dim);
    let mut clusters: Vec<RabitqCluster> = Vec::new();
    let mut c: usize = 0;
    while c < index.postings.len()
        invariant
            arithmetic::is_arithmetic(calc),
            c <= index.postings@.len(),
            index.dim <= usize::MAX / 2,
            index.dim <= padded,
            padded == 1 || padded < 2 * index.dim,
            is_power_of_two(padded as int),
            clusters@.len() == c,
            forall|k: int| 0 <= k < c ==> #[trigger] cluster_fits(*index, k),
            forall|k: int|
                0 <= k < c ==> is_coded_cluster(
                    calc,
                    *index,
                    k,
                    padded as int,
                    #[trigger] clusters@[k],
                ),
        decreases index.postings@.len() - c,
    {
        match encode_cluster(index, c, padded, calc) {
            Ok(cluster) => clusters.push(cluster),
            Err(e) => return Err(e),
        }
        c = c + 1;
    }
    Ok(
        RabitqIndex {
            column: index.column.clone(),
            dim: index.dim,
            padded_dim: padded,
            metric: index.metric,
            clusters,
        },
    )
}

// ---------------------------------------------------------------------------
// Estimates
// ---------------------------------------------------------------------------

/// A query in the rotated space of a cluster.
#[derive(Debug)]
pub struct RotatedQuery {
    pub rotated: Vec<u32>,
    pub residual_norm_sq: u32,
}

/// Coordinates with zeros behind them up to some length.
pub open spec fn padded_with_zeros(data: Seq<u32>, length: int) -> Seq<u32> {
    Seq::new(
        length as nat,
        |i: int|
            if i < data.len() {
                data[i]
            } else {
                0
            },
    )
}

impl RabitqCluster {
    /// Rotates the residual of a query into the space of this cluster.
    pub fn rotate_query<M: Copy + Fn(Step) -> u32>(
        &self,
        query_residual: &Vec<u32>,
        padded_dim: usize,
        calc: M,
    ) -> (q: RotatedQuery)
        requires
            arithmetic::is_arithmetic(calc),
            is_power_of_two(padded_dim as int),
            query_residual@.len() <= padded_dim,
        ensures
            q.residual_norm_sq == square_sum(
                calc,
                arithmetic::NEGATIVE_ZERO,
                query_residual@,
                query_residual@.len() as int,
            ),
            q.rotated@ == rotated(
                calc,
                padded_with_zeros(query_residual@, padded_dim as int),
                self.transform_seed,
            ),
    {
        let ghost full = padded_with_zeros(query_residual@, padded_dim as int);
        let mut data: Vec<u32> = Vec::new();
        let mut sum: u32 = NEGATIVE_ZERO;
        let mut i: usize = 0;
        while i < padded_dim
            invariant
                arithmetic::is_arithmetic(calc),
                i <= padded_dim,
                query_residual@.len() <= padded_dim,
                full == padded_with_zeros(query_residual@, padded_dim as int),
                data@ == full.take(i as int),
                sum == square_sum(
                    calc,
                    arithmetic::NEGATIVE_ZERO,
                    query_residual@,
                    if i < query_residual@.len() {
                        i as int
                    } else {
                        query_residual@.len() as int
                    },
                ),
            decreases padded_dim - i,
        {
            let value: u32 = if i < query_residual.len() {
                let x: u32 = query_residual[i];
                let square: u32 = compute(calc, Step::Mul(x, x));
                sum = compute(calc, Step::Add(sum, square));
                x
            } else {
                0
            };
            data.push(value);
            assert(full.take(i + 1) =~= full.take(i as int).push(full[i as int]));
            i = i + 1;
        }
        assert(full.take(padded_dim as int) =~= full);
        rotate(&mut data, self.transform_seed, calc);
        RotatedQuery { rotated: data, residual_norm_sq: sum }
    }
}

/// The sum of the first `n` coordinates, each with the sign that a code gives it.
pub open spec fn signed_sum<M: Fn(Step) -> u32>(
    calc: M,
    words: Seq<u64>,
    data: Seq<u32>,
    n: int,
) -> u32
    decreases n,
{
    if n <= 0 {
        0
    } else {
        arithmetic::answer(
            calc,
            Step::Add(
                signed_sum(calc, words, data, n - 1),
                if mask::bit_at(words, n - 1) {
                    data[n - 1]
                } else {
                    arithmetic::negated(data[n - 1])
                },
            ),
        )
    }
}

/// The inner product of a code with a rotated query.
pub open spec fn code_product<M: Fn(Step) -> u32>(
    calc: M,
    words: Seq<u64>,
    data: Seq<u32>,
) -> u32 {
    arithmetic::answer(
        calc,
        Step::Div(
            signed_sum(calc, words, data, data.len() as int),
            root(calc, data.len() as int),
        ),
    )
}

/// The estimate of the squared distance of a vector to a query.
pub open spec fn estimated<M: Fn(Step) -> u32>(
    calc: M,
    code: RabitqCode,
    query: RotatedQuery,
) -> u32 {
    if arithmetic::is_zero(code.residual_norm) || arithmetic::is_zero(code.dot_code) {
        query.residual_norm_sq
    } else {
        let inner = arithmetic::answer(
            calc,
            Step::Div(code_product(calc, code.code_words@, query.rotated@), code.dot_code),
        );
        let norm = code.residual_norm;
        let squares = arithmetic::answer(
            calc,
            Step::Add(arithmetic::answer(calc, Step::Mul(norm, norm)), query.residual_norm_sq),
        );
        let cross = arithmetic::answer(calc, Step::Mul(arithmetic::answer(calc, Step::Mul(TWO, norm)), inner));
        let estimate = arithmetic::answer(calc, Step::Sub(squares, cross));
        if vector::beats(estimate, 0) {
            estimate
        } else {
            0
        }
    }
}

impl RabitqCode {
    /// Estimates the squared distance to a query.
    pub fn estimate_l2_sq<M: Copy + Fn(Step) -> u32>(&self, query: &RotatedQuery, calc: M) -> (r:
        u32)
        requires
            arithmetic::is_arithmetic(calc),
            mask::words_needed(query.rotated@.len() as int) <= self.code_words@.len(),
        ensures
            r == estimated(calc, *self, *query),
    {
        if self.residual_norm % vector::SCORE_SIGN == 0 || self.dot_code % vector::SCORE_SIGN == 0 {
            return query.residual_norm_sq;
        }
        let product: u32 = self.code_dot(&query.rotated, calc);
        let inner: u32 = compute(calc, Step::Div(product, self.dot_code));
        let norm: u32 = self.residual_norm;
        let square: u32 = compute(calc, Step::Mul(norm, norm));
        let squares: u32 = compute(calc, Step::Add(square, query.residual_norm_sq));
        let twice: u32 = compute(calc, Step::Mul(TWO, norm));
        let cross: u32 = compute(calc, Step::Mul(twice, inner));
        let estimate: u32 = compute(calc, Step::Sub(squares, cross));
        if score_beats(estimate, 0) {
            estimate
        } else {
            0
        }
    }

    fn code_dot<M: Copy + Fn(Step) -> u32>(&self, rotated_query: &Vec<u32>, calc: M) -> (r: u32)
        requires
            arithmetic::is_arithmetic(calc),
            mask::words_needed(rotated_query@.len() as int) <= self.code_words@.len(),
        ensures
            r == code_product(calc, self.code_words@, rotated_query@),
    {
        let n = rotated_query.len();
        let mut sum: u32 = 0;
        let mut d: usize = 0;
        while d < n
            invariant
                arithmetic::is_arithmetic(calc),
                d <= n,
                n == rotated_query@.len(),
                mask::words_needed(n as int) <= self.code_words@.len(),
                sum == signed_sum(calc, self.code_words@, rotated_query@, d as int),
            decreases n - d,
        {
            let bit = mask::has_bit(&self.code_words, d);
            let value: u32 = if bit {
                rotated_query[d]
            } else {
                negate(rotated_query[d])
            };
            sum = compute(calc, Step::Add(sum, value));
            d = d + 1;
        }
        let count: u32 = compute(calc, Step::Count(n as u64));
        let length: u32 = compute(calc, Step::Sqrt(count));
        compute(calc, Step::Div(sum, length))
    }
}

/// A stage of the transform undoes itself, but for a factor of two, and mixes nothing but
/// the two coordinates of a pair. This is told of numbers that need no rounding.
pub proof fn law_stage_undoes_itself<M: Fn(Step) -> u32>(calc: M, data: Seq<u32>, h: int, j: int)
    requires
        rounding::rounds(calc),
        h > 0,
        0 <= j,
        j + h < data.len(),
        (j / h) % 2 == 0,
        rounding::is_number(data[j]),
        rounding::is_number(data[j + h]),
        rounding::has_bits(rounding::number(data[j]) + rounding::number(data[j + h])),
        rounding::has_bits(rounding::number(data[j]) - rounding::number(data[j + h])),
        rounding::has_bits(2real * rounding::number(data[j])),
        rounding::has_bits(2real * rounding::number(data[j + h])),
    ensures
        ({
            let once = mixed(calc, data, h);
            let twice = mixed(calc, once, h);
            &&& rounding::number(once[j]) == rounding::number(data[j]) + rounding::number(
                data[j + h],
            )
            &&& rounding::number(twice[j]) == 2real * rounding::number(data[j])
            &&& rounding::number(twice[j + h]) == 2real * rounding::number(data[j + h])
        }),
{
    let a = rounding::number(data[j]);
    let b = rounding::number(data[j + h]);
    let q = (j / h) / 2;
    div_mod::lemma_fundamental_div_mod(j, h);
    assert(j / h == 2 * q);
    assert(h * (2 * q) == 2 * h * q) by (nonlinear_arith);
    assert(q >= 0) by {
        div_mod::lemma_div_pos_is_pos(j, h);
    }
    lemma_even_half(q, h, j);
    let once = mixed(calc, data, h);
    let twice = mixed(calc, once, h);
    rounding::lemma_exact_step(calc, Step::Add(data[j], data[j + h]), a + b);
    rounding::lemma_exact_step(calc, Step::Sub(data[j], data[j + h]), a - b);
    assert(once[j] == arithmetic::answer(calc, Step::Add(data[j], data[j + h])));
    assert(once[j + h] == arithmetic::answer(calc, Step::Sub(data[j], data[j + h])));
    rounding::lemma_exact_step(calc, Step::Add(once[j], once[j + h]), 2real * a);
    rounding::lemma_exact_step(calc, Step::Sub(once[j], once[j + h]), 2real * b);
}

/// Turning signs over keeps every size, and doing it again gives back what was there.
pub proof fn law_turned_signs_turn_back(data: Seq<u32>, seed: u64, i: int)
    requires
        0 <= i < data.len(),
        rounding::is_number(data[i]),
    ensures
        flipped(flipped(data, seed), seed)[i] == data[i],
        flipped(data, seed).len() == data.len(),
        rounding::number(flipped(data, seed)[i]) == rounding::number(data[i]) || rounding::number(
            flipped(data, seed)[i],
        ) == 0real - rounding::number(data[i]),
{
    rounding::lemma_negated(data[i]);
}

/// The bits of a code say which coordinates are above zero.
pub proof fn law_bits_are_signs(words: Seq<u64>, data: Seq<u32>, d: int)
    requires
        holds_signs(words, data),
        0 <= d < data.len(),
        rounding::is_number(data[d]),
    ensures
        mask::bit_at(words, d) <==> rounding::number(data[d]) > 0real,
{
    rounding::lemma_zeros(0);
    rounding::law_higher_score_is_higher_number(data[d], 0);
}

/// The residual is what a vector is away from its centroid, and no more: added to the
/// centroid it gives the vector back.
pub proof fn law_residual_leads_back_to_the_vector<M: Fn(Step) -> u32>(
    calc: M,
    v: Seq<u32>,
    centroid: Seq<u32>,
    length: int,
    d: int,
)
    requires
        rounding::rounds(calc),
        0 <= d < length,
        v.len() == centroid.len(),
        v.len() <= length,
        d < v.len() ==> rounding::is_number(v[d]) && rounding::is_number(centroid[d])
            && rounding::has_bits(rounding::number(v[d]) - rounding::number(centroid[d])),
    ensures
        d < v.len() ==> rounding::number(centroid[d]) + rounding::number(
            residual(calc, v, centroid, length)[d],
        ) == rounding::number(v[d]),
        d >= v.len() ==> rounding::number(residual(calc, v, centroid, length)[d]) == 0real,
{
    rounding::lemma_zeros(0);
    if d < v.len() {
        rounding::lemma_exact_step(
            calc,
            Step::Sub(v[d], centroid[d]),
            rounding::number(v[d]) - rounding::number(centroid[d]),
        );
    }
}

/// The sum of the first `n` coordinates, each with the sign that a code gives it, without
/// rounding.
pub open spec fn sum_with_signs(words: Seq<u64>, data: Seq<u32>, n: int) -> real
    decreases n,
{
    if n <= 0 {
        0real
    } else if mask::bit_at(words, n - 1) {
        sum_with_signs(words, data, n - 1) + rounding::number(data[n - 1])
    } else {
        sum_with_signs(words, data, n - 1) - rounding::number(data[n - 1])
    }
}

/// Coordinates are added where the code has a bit and taken away where it has none. This is
/// told of sums that need no rounding.
pub proof fn law_codes_give_the_signs<M: Fn(Step) -> u32>(
    calc: M,
    words: Seq<u64>,
    data: Seq<u32>,
    n: int,
)
    requires
        rounding::rounds(calc),
        0 <= n <= data.len(),
        forall|k: int| 0 <= k < n ==> rounding::is_number(#[trigger] data[k]),
        forall|k: int| 0 <= k <= n ==> rounding::has_bits(#[trigger] sum_with_signs(words, data, k)),
    ensures
        rounding::is_number(signed_sum(calc, words, data, n)),
        rounding::number(signed_sum(calc, words, data, n)) == sum_with_signs(words, data, n),
    decreases n,
{
    rounding::lemma_zeros(0);
    if n > 0 {
        law_codes_give_the_signs(calc, words, data, n - 1);
        let before = signed_sum(calc, words, data, n - 1);
        let x = data[n - 1];
        assert(rounding::is_number(x));
        rounding::lemma_negated(x);
        assert(rounding::has_bits(sum_with_signs(words, data, n)));
        let y = if mask::bit_at(words, n - 1) {
            x
        } else {
            arithmetic::negated(x)
        };
        rounding::lemma_exact_step(calc, Step::Add(before, y), sum_with_signs(words, data, n));
    }
}

/// The estimate follows the law of cosines: the square of the vector's own length and that
/// of the query's, less twice the product of the length with the estimated inner product
/// `inner`, and never below zero. This is told of steps that need no rounding.
pub proof fn law_estimate_follows_the_cosine<M: Fn(Step) -> u32>(
    calc: M,
    code: RabitqCode,
    query: RotatedQuery,
    inner: real,
)
    requires
        rounding::rounds(calc),
        rounding::is_number(code.residual_norm),
        rounding::is_number(query.residual_norm_sq),
        rounding::number(query.residual_norm_sq) >= 0real,
        rounding::is_number(code.dot_code),
        rounding::is_number(code_product(calc, code.code_words@, query.rotated@)),
        rounding::number(code.dot_code) != 0real,
        inner * rounding::number(code.dot_code) == rounding::number(
            code_product(calc, code.code_words@, query.rotated@),
        ),
        ({
            let x = rounding::number(code.residual_norm);
            let y = rounding::number(query.residual_norm_sq);
            &&& rounding::has_bits(inner)
            &&& rounding::has_bits(x * x)
            &&& rounding::has_bits(x * x + y)
            &&& rounding::has_bits(2real * x)
            &&& rounding::has_bits(2real * x * inner)
            &&& rounding::has_bits(x * x + y - 2real * x * inner)
        }),
    ensures
        ({
            let x = rounding::number(code.residual_norm);
            let y = rounding::number(query.residual_norm_sq);
            let exact = x * x + y - 2real * x * inner;
            rounding::number(estimated(calc, code, query)) == if exact > 0real {
                exact
            } else {
                0real
            }
        }),
{
    let x = rounding::number(code.residual_norm);
    let y = rounding::number(query.residual_norm_sq);
    rounding::lemma_zeros(0);
    rounding::lemma_zero_bits(code.residual_norm);
    rounding::lemma_zero_bits(code.dot_code);
    if x == 0real {
        assert(x * x == 0real) by (nonlinear_arith)
            requires
                x == 0real,
        ;
        assert(2real * x * inner == 0real) by (nonlinear_arith)
            requires
                x == 0real,
        ;
    } else {
        let norm = code.residual_norm;
        let product = code_product(calc, code.code_words@, query.rotated@);
        let i = arithmetic::answer(calc, Step::Div(product, code.dot_code));
        rounding::lemma_exact_step(calc, Step::Div(product, code.dot_code), inner);
        rounding::lemma_constants();
        let s = arithmetic::answer(calc, Step::Mul(norm, norm));
        rounding::lemma_exact_step(calc, Step::Mul(norm, norm), x * x);
        let squares = arithmetic::answer(calc, Step::Add(s, query.residual_norm_sq));
        rounding::lemma_exact_step(calc, Step::Add(s, query.residual_norm_sq), x * x + y);
        let d = arithmetic::answer(calc, Step::Mul(TWO, norm));
        rounding::lemma_exact_step(calc, Step::Mul(TWO, norm), 2real * x);
        let cross = arithmetic::answer(calc, Step::Mul(d, i));
        rounding::lemma_exact_step(calc, Step::Mul(d, i), 2real * x * inner);
        let e = arithmetic::answer(calc, Step::Sub(squares, cross));
        rounding::lemma_exact_step(
            calc,
            Step::Sub(squares, cross),
            x * x + y - 2real * x * inner,
        );
        rounding::law_higher_score_is_higher_number(e, 0);
    }
}

/// The sum of the squares of the first `n` coordinates, without rounding.
pub open spec fn squares(data: Seq<u32>, n: int) -> real
    decreases n,
{
    if n <= 0 {
        0real
    } else {
        squares(data, n - 1) + rounding::number(data[n - 1]) * rounding::number(data[n - 1])
    }
}

/// The square of a length is the sum of the squares of the coordinates; zeros behind them
/// change nothing. This is told of sums that need no rounding.
pub proof fn law_lengths_are_sums_of_squares<M: Fn(Step) -> u32>(
    calc: M,
    data: Seq<u32>,
    length: int,
    n: int,
)
    requires
        rounding::rounds(calc),
        0 <= n <= data.len() <= length,
        forall|k: int|
            0 <= k < n ==> rounding::is_number(#[trigger] data[k]) && rounding::has_bits(
                rounding::number(data[k]) * rounding::number(data[k]),
            ),
        forall|k: int| 0 <= k <= n ==> rounding::has_bits(#[trigger] squares(data, k)),
    ensures
        rounding::is_number(square_sum(calc, 0, data, n)),
        rounding::number(square_sum(calc, 0, data, n)) == squares(data, n),
        square_sum(calc, 0, padded_with_zeros(data, length), n) == square_sum(calc, 0, data, n),
    decreases n,
{
    rounding::lemma_zeros(0);
    if n > 0 {
        law_lengths_are_sums_of_squares(calc, data, length, n - 1);
        let x = rounding::number(data[n - 1]);
        let before = square_sum(calc, 0, data, n - 1);
        assert(rounding::has_bits(squares(data, n)));
        assert(rounding::is_number(data[n - 1]));
        let square = arithmetic::answer(calc, Step::Mul(data[n - 1], data[n - 1]));
        rounding::lemma_exact_step(calc, Step::Mul(data[n - 1], data[n - 1]), x * x);
        rounding::lemma_exact_step(calc, Step::Add(before, square), squares(data, n));
        assert(padded_with_zeros(data, length)[n - 1] == data[n - 1]);
    }
}

} // verus!
