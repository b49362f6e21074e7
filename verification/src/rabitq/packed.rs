//! Queries of four binary digits per coordinate, laid out as one plane of bits per
//! digit, so that inner products with codes are sums of bit counts.

use vstd::prelude::*;

use crate::rounding;
use crate::arithmetic;
use crate::arithmetic::{compute, Step, TWO};
use crate::hash;
use crate::hash::splitmix64;
use crate::vector;
use crate::vector::mask;
use crate::vector::mask::{set_bit, words_for_rows, zero_words};
use crate::vector::score_beats;

verus! {

/// How many binary digits a coordinate of a query has.
pub const QUERY_BITS: usize = 4;

/// The highest level of a coordinate.
pub const QUERY_LEVELS: u32 = 15;

// ---------------------------------------------------------------------------
// Counting bits
// ---------------------------------------------------------------------------

/// One if a bit is set.
pub open spec fn one_if(b: bool) -> int {
    if b {
        1
    } else {
        0
    }
}

/// How many of the lowest `n` bits of a word are set.
pub open spec fn ones_below(word: u64, n: int) -> int
    decreases n,
{
    if n <= 0 {
        0
    } else {
        ones_below(word, n - 1) + one_if(mask::word_bit(word, (n - 1) as u64))
    }
}

/// `u64::count_ones` is documented as the number of ones in the binary
/// representation of a number.
pub assume_specification[ u64::count_ones ](word: u64) -> (n: u32)
    ensures
        n == ones_below(word, 64),
;

proof fn lemma_ones_bounded(word: u64, n: int)
    requires
        n >= 0,
    ensures
        0 <= ones_below(word, n) <= n,
    decreases n,
{
    if n > 0 {
        lemma_ones_bounded(word, n - 1);
    }
}

/// What a digit counts for.
pub open spec fn digit_weight(b: int) -> int {
    if b == 0 {
        1
    } else if b == 1 {
        2
    } else if b == 2 {
        4
    } else {
        8
    }
}

/// How many bits of the first `n` words are set.
pub open spec fn ones_of(words: Seq<u64>, n: int) -> int
    decreases n,
{
    if n <= 0 {
        0
    } else {
        ones_of(words, n - 1) + ones_below(words[n - 1], 64)
    }
}

/// The bits of one word that a code shares with the first `b` planes, each counted
/// for what its digit counts for.
pub open spec fn shared_in_word(code: u64, planes: Seq<Vec<u64>>, w: int, b: int) -> int
    decreases b,
{
    if b <= 0 {
        0
    } else {
        shared_in_word(code, planes, w, b - 1) + ones_below(code & planes[b - 1]@[w], 64)
            * digit_weight(b - 1)
    }
}

/// The bits of the first `n` words that a code shares with the planes.
pub open spec fn shared_of(words: Seq<u64>, planes: Seq<Vec<u64>>, n: int) -> int
    decreases n,
{
    if n <= 0 {
        0
    } else {
        shared_of(words, planes, n - 1) + shared_in_word(
            words[n - 1],
            planes,
            n - 1,
            QUERY_BITS as int,
        )
    }
}

/// There is a plane per digit, and each has a word for every word of a code.
pub open spec fn planes_fit(planes: Seq<Vec<u64>>, n: int) -> bool {
    planes.len() == QUERY_BITS && forall|b: int|
        0 <= b < QUERY_BITS ==> (#[trigger] planes[b])@.len() >= n
}

/// Counts the bits of a code, and those that it shares with the planes of a query.
pub fn portable_bit_counts(code_words: &Vec<u64>, planes: &Vec<Vec<u64>>) -> (r: (u64, u64))
    requires
        planes_fit(planes@, code_words@.len() as int),
        code_words@.len() * 960 <= u64::MAX,
    ensures
        r.0 == ones_of(code_words@, code_words@.len() as int),
        r.1 == shared_of(code_words@, planes@, code_words@.len() as int),
{
    let mut ones: u64 = 0;
    let mut shared: u64 = 0;
    let mut w: usize = 0;
    while w < code_words.len()
        invariant
            w <= code_words@.len(),
            planes_fit(planes@, code_words@.len() as int),
            code_words@.len() * 960 <= u64::MAX,
            ones == ones_of(code_words@, w as int),
            shared == shared_of(code_words@, planes@, w as int),
            ones <= w * 64,
            shared <= w * 960,
        decreases code_words@.len() - w,
    {
        let code: u64 = code_words[w];
        proof {
            lemma_ones_bounded(code, 64);
        }
        ones = ones + code.count_ones() as u64;
        let mut in_word: u64 = 0;
        let mut weight: u64 = 1;
        let mut b: usize = 0;
        while b < QUERY_BITS
            invariant
                b <= QUERY_BITS,
                w < code_words@.len(),
                code == code_words@[w as int],
                planes_fit(planes@, code_words@.len() as int),
                b < QUERY_BITS ==> weight == digit_weight(b as int),
                weight <= 16,
                in_word == shared_in_word(code, planes@, w as int, b as int),
                in_word <= 64 * (weight - 1),
                weight == (if b == 0 {
                    1int
                } else if b == 1 {
                    2
                } else if b == 2 {
                    4
                } else if b == 3 {
                    8
                } else {
                    16
                }),
            decreases QUERY_BITS - b,
        {
            let both: u64 = code & planes[b][w];
            proof {
                lemma_ones_bounded(both, 64);
            }
            let n: u64 = both.count_ones() as u64;
            assert(n * weight <= 64 * weight) by (nonlinear_arith)
                requires
                    n <= 64,
            ;
            in_word = in_word + n * weight;
            weight = 2 * weight;
            b = b + 1;
        }
        shared = shared + in_word;
        w = w + 1;
    }
    (ones, shared)
}

// ---------------------------------------------------------------------------
// Packing
// ---------------------------------------------------------------------------

/// A binary digit of a level.
pub open spec fn digit(level: u32, b: int) -> bool {
    (level as int / digit_weight(b)) % 2 == 1
}

/// The sum of the first `n` levels.
pub open spec fn level_sum(levels: Seq<u32>, n: int) -> int
    decreases n,
{
    if n <= 0 {
        0
    } else {
        level_sum(levels, n - 1) + levels[n - 1]
    }
}

/// No level is above the highest.
pub open spec fn levels_ok(levels: Seq<u32>) -> bool {
    forall|i: int| 0 <= i < levels.len() ==> #[trigger] levels[i] <= QUERY_LEVELS
}

/// Plane `b` has the digits `b` of some levels.
pub open spec fn is_plane_of(plane: Seq<u64>, levels: Seq<u32>, b: int) -> bool {
    &&& plane.len() == mask::words_needed(levels.len() as int)
    &&& forall|d: int| #[trigger]
        mask::bit_at(plane, d) == (0 <= d < levels.len() && digit(levels[d], b))
}

/// Planes have the digits of some levels.
pub open spec fn are_planes_of(planes: Seq<Vec<u64>>, levels: Seq<u32>) -> bool {
    &&& planes.len() == QUERY_BITS
    &&& forall|b: int| 0 <= b < QUERY_BITS ==> is_plane_of((#[trigger] planes[b])@, levels, b)
}

/// Lays out a digit of every level.
fn pack_plane(levels: &Vec<u32>, weight: u32, Ghost(b): Ghost<int>) -> (plane: Vec<u64>)
    requires
        weight == digit_weight(b),
    ensures
        is_plane_of(plane@, levels@, b),
{
    let n = levels.len();
    let mut plane = zero_words(words_for_rows(n));
    let mut d: usize = 0;
    while d < n
        invariant
            d <= n,
            n == levels@.len(),
            weight == digit_weight(b),
            plane@.len() == mask::words_needed(n as int),
            forall|k: int| #[trigger]
                mask::bit_at(plane@, k) == (0 <= k < d && digit(levels@[k], b)),
        decreases n - d,
    {
        if (levels[d] / weight) % 2 == 1 {
            set_bit(&mut plane, d);
        }
        d = d + 1;
    }
    plane
}

/// Lays out levels, one plane of bits per digit.
pub fn pack_levels(levels: &Vec<u32>) -> (planes: Vec<Vec<u64>>)
    ensures
        are_planes_of(planes@, levels@),
{
    let mut planes: Vec<Vec<u64>> = Vec::new();
    planes.push(pack_plane(levels, 1, Ghost(0)));
    planes.push(pack_plane(levels, 2, Ghost(1)));
    planes.push(pack_plane(levels, 4, Ghost(2)));
    planes.push(pack_plane(levels, 8, Ghost(3)));
    planes
}

// ---------------------------------------------------------------------------
// Queries
// ---------------------------------------------------------------------------

/// A query of four binary digits per coordinate.
#[derive(Debug)]
pub struct PackedQuery {
    pub bit_planes: Vec<Vec<u64>>,
    pub lower: u32,
    pub delta: u32,
    pub sum_quantized: u64,
    pub padded_dim: usize,
}

/// Plus infinity, by its bits.
pub const INFINITY: u32 = 0x7f80_0000;

/// Minus infinity, by its bits.
pub const NEGATIVE_INFINITY: u32 = 0xff80_0000;

/// Fifteen, by its bits.
pub const FIFTEEN: u32 = 0x4170_0000;

/// The lowest of the first `n` coordinates.
pub open spec fn lowest_of(data: Seq<u32>, n: int) -> u32
    decreases n,
{
    if n <= 0 {
        INFINITY
    } else {
        let before = lowest_of(data, n - 1);
        if vector::beats(before, data[n - 1]) {
            data[n - 1]
        } else {
            before
        }
    }
}

/// The highest of the first `n` coordinates.
pub open spec fn highest_of(data: Seq<u32>, n: int) -> u32
    decreases n,
{
    if n <= 0 {
        NEGATIVE_INFINITY
    } else {
        let before = highest_of(data, n - 1);
        if vector::beats(data[n - 1], before) {
            data[n - 1]
        } else {
            before
        }
    }
}

/// The size of a step of the scale.
pub open spec fn step_size<M: Fn(Step) -> u32>(calc: M, data: Seq<u32>) -> u32 {
    let n = data.len() as int;
    arithmetic::answer(
        calc,
        Step::Div(
            arithmetic::answer(calc, Step::Sub(highest_of(data, n), lowest_of(data, n))),
            FIFTEEN,
        ),
    )
}

/// The noise of a coordinate: 24 bits.
pub open spec fn noise_of(seed: u64, d: int) -> u32 {
    (hash::splitmix64_of(seed ^ (d as u64)) / 0x100_0000_0000) as u32
}

/// The level of a coordinate.
pub open spec fn level_of<M: Fn(Step) -> u32>(
    calc: M,
    data: Seq<u32>,
    seed: u64,
    d: int,
) -> u32 {
    let level = arithmetic::answer(
        calc,
        Step::Level {
            value: data[d],
            lower: lowest_of(data, data.len() as int),
            delta: step_size(calc, data),
            noise: noise_of(seed, d),
        },
    );
    if level > QUERY_LEVELS {
        QUERY_LEVELS
    } else {
        level
    }
}

/// The levels of all coordinates; without a scale, all are zero.
pub open spec fn levels_of<M: Fn(Step) -> u32>(calc: M, data: Seq<u32>, seed: u64) -> Seq<u32> {
    Seq::new(
        data.len(),
        |d: int|
            if vector::beats(step_size(calc, data), 0) {
                level_of(calc, data, seed, d)
            } else {
                0
            },
    )
}

impl PackedQuery {
    /// Quantizes a rotated query.
    pub fn new<M: Copy + Fn(Step) -> u32>(rotated: &Vec<u32>, seed: u64, calc: M) -> (q:
        PackedQuery)
        requires
            arithmetic::is_arithmetic(calc),
            rotated@.len() * 15 <= u64::MAX,
        ensures
            ({
                let levels = levels_of(calc, rotated@, seed);
                &&& are_planes_of(q.bit_planes@, levels)
                &&& q.lower == lowest_of(rotated@, rotated@.len() as int)
                &&& q.delta == step_size(calc, rotated@)
                &&& q.sum_quantized == level_sum(levels, levels.len() as int)
                &&& q.padded_dim == rotated@.len()
            }),
    {
        let n = rotated.len();
        let mut lower: u32 = INFINITY;
        let mut upper: u32 = NEGATIVE_INFINITY;
        let mut i: usize = 0;
        while i < n
            invariant
                i <= n,
                n == rotated@.len(),
                lower == lowest_of(rotated@, i as int),
                upper == highest_of(rotated@, i as int),
            decreases n - i,
        {
            if score_beats(lower, rotated[i]) {
                lower = rotated[i];
            }
            if score_beats(rotated[i], upper) {
                upper = rotated[i];
            }
            i = i + 1;
        }
        let range: u32 = compute(calc, Step::Sub(upper, lower));
        let delta: u32 = compute(calc, Step::Div(range, FIFTEEN));
        let has_scale = score_beats(delta, 0);
        let ghost goal = levels_of(calc, rotated@, seed);
        let mut levels: Vec<u32> = Vec::new();
        let mut sum: u64 = 0;
        let mut d: usize = 0;
        while d < n
            invariant
                arithmetic::is_arithmetic(calc),
                d <= n,
                n == rotated@.len(),
                n * 15 <= u64::MAX,
                lower == lowest_of(rotated@, n as int),
                delta == step_size(calc, rotated@),
                has_scale == vector::beats(delta, 0),
                goal == levels_of(calc, rotated@, seed),
                levels@ == goal.take(d as int),
                sum == level_sum(goal, d as int),
                sum <= d * 15,
            decreases n - d,
        {
            let level: u32 = if has_scale {
                let noise: u32 = noise(seed, d as u64, Ghost(d as int));
                let level: u32 = compute(
                    calc,
                    Step::Level { value: rotated[d], lower, delta, noise },
                );
                if level > QUERY_LEVELS {
                    QUERY_LEVELS
                } else {
                    level
                }
            } else {
                0
            };
            assert(level == goal[d as int]);
            levels.push(level);
            assert(goal.take(d + 1) =~= goal.take(d as int).push(goal[d as int]));
            sum = sum + level as u64;
            d = d + 1;
        }
        assert(goal.take(n as int) =~= goal);
        PackedQuery {
            bit_planes: pack_levels(&levels),
            lower,
            delta,
            sum_quantized: sum,
            padded_dim: n,
        }
    }

    /// The inner product of a code with the query.
    pub fn code_dot<M: Copy + Fn(Step) -> u32>(&self, code_words: &Vec<u64>, calc: M) -> (r: u32)
        requires
            arithmetic::is_arithmetic(calc),
            planes_fit(self.bit_planes@, code_words@.len() as int),
            code_words@.len() * 960 <= u64::MAX,
        ensures
            r == packed_product(
                calc,
                *self,
                ones_of(code_words@, code_words@.len() as int),
                shared_of(code_words@, self.bit_planes@, code_words@.len() as int),
            ),
    {
        let (ones, shared) = portable_bit_counts(code_words, &self.bit_planes);
        let shared_number: u32 = compute(calc, Step::Count(shared));
        let ones_number: u32 = compute(calc, Step::Count(ones));
        let sum_number: u32 = compute(calc, Step::Count(self.sum_quantized));
        let dim_number: u32 = compute(calc, Step::Count(self.padded_dim as u64));
        let two_delta: u32 = compute(calc, Step::Mul(TWO, self.delta));
        let a: u32 = compute(calc, Step::Mul(two_delta, shared_number));
        let two_lower: u32 = compute(calc, Step::Mul(TWO, self.lower));
        let b: u32 = compute(calc, Step::Mul(two_lower, ones_number));
        let c: u32 = compute(calc, Step::Mul(self.delta, sum_number));
        let d: u32 = compute(calc, Step::Mul(dim_number, self.lower));
        let ab: u32 = compute(calc, Step::Add(a, b));
        let abc: u32 = compute(calc, Step::Sub(ab, c));
        let abcd: u32 = compute(calc, Step::Sub(abc, d));
        let length: u32 = compute(calc, Step::Sqrt(dim_number));
        compute(calc, Step::Div(abcd, length))
    }

    /// How far rounding can take an inner product from its value.
    pub fn error_radius<M: Copy + Fn(Step) -> u32>(&self, epsilon: u32, calc: M) -> (r: u32)
        requires
            arithmetic::is_arithmetic(calc),
        ensures
            r == arithmetic::answer(calc, Step::Mul(self.delta, epsilon)),
    {
        compute(calc, Step::Mul(self.delta, epsilon))
    }
}

fn noise(seed: u64, d: u64, Ghost(at): Ghost<int>) -> (r: u32)
    requires
        d == at as u64,
    ensures
        r == noise_of(seed, at),
{
    (splitmix64(seed ^ d) / 0x100_0000_0000) as u32
}

/// The inner product of a query with a code that has `ones` bits set and shares
/// `shared` with the planes.
pub open spec fn packed_product<M: Fn(Step) -> u32>(
    calc: M,
    q: PackedQuery,
    ones: int,
    shared: int,
) -> u32 {
    let dim = arithmetic::answer(calc, Step::Count(q.padded_dim as u64));
    let a = arithmetic::answer(
        calc,
        Step::Mul(
            arithmetic::answer(calc, Step::Mul(TWO, q.delta)),
            arithmetic::answer(calc, Step::Count(shared as u64)),
        ),
    );
    let b = arithmetic::answer(
        calc,
        Step::Mul(
            arithmetic::answer(calc, Step::Mul(TWO, q.lower)),
            arithmetic::answer(calc, Step::Count(ones as u64)),
        ),
    );
    let c = arithmetic::answer(
        calc,
        Step::Mul(q.delta, arithmetic::answer(calc, Step::Count(q.sum_quantized))),
    );
    let d = arithmetic::answer(calc, Step::Mul(dim, q.lower));
    arithmetic::answer(
        calc,
        Step::Div(
            arithmetic::answer(
                calc,
                Step::Sub(
                    arithmetic::answer(
                        calc,
                        Step::Sub(arithmetic::answer(calc, Step::Add(a, b)), c),
                    ),
                    d,
                ),
            ),
            arithmetic::answer(calc, Step::Sqrt(dim)),
        ),
    )
}

// ---------------------------------------------------------------------------
// Laws
// ---------------------------------------------------------------------------

/// The sum of the levels, among the first `n`, whose bit a code has set.
pub open spec fn chosen_sum(words: Seq<u64>, levels: Seq<u32>, n: int) -> int
    decreases n,
{
    if n <= 0 {
        0
    } else {
        chosen_sum(words, levels, n - 1) + (if mask::bit_at(words, n - 1) {
            levels[n - 1] as int
        } else {
            0
        })
    }
}

/// The level at a coordinate; zero past the end.
spec fn level_at(levels: Seq<u32>, d: int) -> int {
    if d < levels.len() {
        levels[d] as int
    } else {
        0
    }
}

/// The sum of the levels at the lowest `n` bits of word `w` that a code has set.
spec fn chosen_in_word(code: u64, levels: Seq<u32>, w: int, n: int) -> int
    decreases n,
{
    if n <= 0 {
        0
    } else {
        chosen_in_word(code, levels, w, n - 1) + (if mask::word_bit(code, (n - 1) as u64) {
            level_at(levels, 64 * w + n - 1)
        } else {
            0
        })
    }
}

/// The bits below `n` that a code shares with the planes, by digit.
spec fn shared_below(code: u64, planes: Seq<Vec<u64>>, w: int, n: int) -> int {
    ones_below(code & planes[0]@[w], n) + ones_below(code & planes[1]@[w], n) * 2 + ones_below(
        code & planes[2]@[w],
        n,
    ) * 4 + ones_below(code & planes[3]@[w], n) * 8
}

proof fn lemma_digits(level: u32)
    requires
        level <= QUERY_LEVELS,
    ensures
        level == one_if(digit(level, 0)) + one_if(digit(level, 1)) * 2 + one_if(digit(level, 2))
            * 4 + one_if(digit(level, 3)) * 8,
{
}

proof fn lemma_plane_bit(plane: Seq<u64>, levels: Seq<u32>, b: int, w: int, k: int)
    requires
        is_plane_of(plane, levels, b),
        0 <= w < plane.len(),
        0 <= k < 64,
        0 <= b < 4,
    ensures
        mask::word_bit(plane[w], k as u64) == digit(level_at(levels, 64 * w + k) as u32, b),
{
    let d = 64 * w + k;
    assert(d / 64 == w && d % 64 == k);
    assert(mask::bit_at(plane, d) == mask::word_bit(plane[w], k as u64));
}

proof fn lemma_word_agrees(code: u64, planes: Seq<Vec<u64>>, levels: Seq<u32>, w: int, n: int)
    requires
        are_planes_of(planes, levels),
        levels_ok(levels),
        0 <= w < mask::words_needed(levels.len() as int),
        0 <= n <= 64,
    ensures
        shared_below(code, planes, w, n) == chosen_in_word(code, levels, w, n),
    decreases n,
{
    if n > 0 {
        lemma_word_agrees(code, planes, levels, w, n - 1);
        let k = (n - 1) as u64;
        let level = level_at(levels, 64 * w + n - 1);
        lemma_digits(level as u32);
        mask::lemma_bit_ops(code, planes[0]@[w], k);
        mask::lemma_bit_ops(code, planes[1]@[w], k);
        mask::lemma_bit_ops(code, planes[2]@[w], k);
        mask::lemma_bit_ops(code, planes[3]@[w], k);
        lemma_plane_bit(planes[0]@, levels, 0, w, n - 1);
        lemma_plane_bit(planes[1]@, levels, 1, w, n - 1);
        lemma_plane_bit(planes[2]@, levels, 2, w, n - 1);
        lemma_plane_bit(planes[3]@, levels, 3, w, n - 1);
    }
}

/// Adding up within words is adding up by coordinate.
proof fn lemma_chosen_word(words: Seq<u64>, levels: Seq<u32>, w: int, n: int)
    requires
        0 <= w < words.len(),
        0 <= n <= 64,
    ensures
        chosen_padded(words, levels, 64 * w + n) == chosen_padded(words, levels, 64 * w)
            + chosen_in_word(words[w], levels, w, n),
    decreases n,
{
    if n > 0 {
        lemma_chosen_word(words, levels, w, n - 1);
        let d = 64 * w + n - 1;
        assert(d / 64 == w && d % 64 == n - 1);
    }
}

/// As `chosen_sum`, with zero for coordinates past the end.
spec fn chosen_padded(words: Seq<u64>, levels: Seq<u32>, n: int) -> int
    decreases n,
{
    if n <= 0 {
        0
    } else {
        chosen_padded(words, levels, n - 1) + (if mask::bit_at(words, n - 1) {
            level_at(levels, n - 1)
        } else {
            0
        })
    }
}

proof fn lemma_padding(words: Seq<u64>, levels: Seq<u32>, n: int)
    requires
        0 <= n,
    ensures
        chosen_padded(words, levels, n) == chosen_sum(
            words,
            levels,
            if n < levels.len() {
                n
            } else {
                levels.len() as int
            },
        ),
    decreases n,
{
    if n > 0 {
        lemma_padding(words, levels, n - 1);
    }
}

proof fn lemma_shared_words(words: Seq<u64>, planes: Seq<Vec<u64>>, levels: Seq<u32>, n: int)
    requires
        are_planes_of(planes, levels),
        levels_ok(levels),
        words.len() == mask::words_needed(levels.len() as int),
        0 <= n <= words.len(),
    ensures
        shared_of(words, planes, n) == chosen_padded(words, levels, 64 * n),
    decreases n,
{
    if n > 0 {
        lemma_shared_words(words, planes, levels, n - 1);
        lemma_word_agrees(words[n - 1], planes, levels, n - 1, 64);
        lemma_chosen_word(words, levels, n - 1, 64);
        reveal_with_fuel(shared_in_word, 5);
    }
}

/// Counting the bits that a code shares with the planes of a query adds up exactly
/// the levels of the coordinates whose bit the code has set.
pub proof fn law_shared_bits_add_levels(
    words: Seq<u64>,
    planes: Seq<Vec<u64>>,
    levels: Seq<u32>,
)
    requires
        are_planes_of(planes, levels),
        levels_ok(levels),
        words.len() == mask::words_needed(levels.len() as int),
    ensures
        shared_of(words, planes, words.len() as int) == chosen_sum(
            words,
            levels,
            levels.len() as int,
        ),
{
    lemma_shared_words(words, planes, levels, words.len() as int);
    lemma_padding(words, levels, 64 * words.len() as int);
}

/// The scale goes from the lowest coordinate to the highest: all are between, and both ends
/// are among them.
pub proof fn law_scale_covers_the_coordinates(data: Seq<u32>, n: int, i: int)
    requires
        0 <= i < n <= data.len(),
        forall|k: int| 0 <= k < n ==> rounding::is_number(#[trigger] data[k]),
    ensures
        rounding::is_number(lowest_of(data, n)),
        rounding::is_number(highest_of(data, n)),
        rounding::number(lowest_of(data, n)) <= rounding::number(data[i]) <= rounding::number(
            highest_of(data, n),
        ),
        exists|k: int| 0 <= k < n && lowest_of(data, n) == #[trigger] data[k],
        exists|k: int| 0 <= k < n && highest_of(data, n) == #[trigger] data[k],
    decreases n,
{
    let last = data[n - 1];
    assert(rounding::is_number(last));
    if n > 1 {
        law_scale_covers_the_coordinates(
            data,
            n - 1,
            if i < n - 1 {
                i
            } else {
                0
            },
        );
        rounding::law_higher_score_is_higher_number(lowest_of(data, n - 1), last);
        rounding::law_higher_score_is_higher_number(last, highest_of(data, n - 1));
    } else {
        assert(lowest_of(data, 0) == INFINITY);
        assert(highest_of(data, 0) == NEGATIVE_INFINITY);
        assert(vector::beats(INFINITY, last));
        assert(vector::beats(last, NEGATIVE_INFINITY));
    }
}

/// The sum of what the levels of the first `n` coordinates stand for, each with the sign
/// that a code gives it.
pub open spec fn levels_with_signs(
    words: Seq<u64>,
    levels: Seq<u32>,
    lower: real,
    delta: real,
    n: int,
) -> real
    decreases n,
{
    if n <= 0 {
        0real
    } else {
        let value = lower + delta * (levels[n - 1] as real);
        if mask::bit_at(words, n - 1) {
            levels_with_signs(words, levels, lower, delta, n - 1) + value
        } else {
            levels_with_signs(words, levels, lower, delta, n - 1) - value
        }
    }
}

/// How many of the first `n` coordinates a code has a bit for.
pub open spec fn set_bits(words: Seq<u64>, n: int) -> int
    decreases n,
{
    if n <= 0 {
        0
    } else {
        set_bits(words, n - 1) + one_if(mask::bit_at(words, n - 1))
    }
}

proof fn lemma_sums_are_counts(words: Seq<u64>, levels: Seq<u32>, n: int)
    requires
        0 <= n <= levels.len(),
    ensures
        0 <= set_bits(words, n) <= n,
        0 <= chosen_sum(words, levels, n) <= level_sum(levels, n),
    decreases n,
{
    if n > 0 {
        lemma_sums_are_counts(words, levels, n - 1);
    }
}

proof fn lemma_more(d: real, a: real, b: real)
    ensures
        d * (a + b) == d * a + d * b,
{
    assert(d * (a + b) == d * a + d * b) by (nonlinear_arith);
}

/// Twice what the code chooses, less all of it, is what signs make of it: a coordinate with a
/// bit counts once for and one without once against.
pub proof fn law_chosen_levels_give_the_signed_sum(
    words: Seq<u64>,
    levels: Seq<u32>,
    lower: real,
    delta: real,
    n: int,
)
    requires
        0 <= n <= levels.len(),
    ensures
        levels_with_signs(words, levels, lower, delta, n) == (delta * (chosen_sum(
            words,
            levels,
            n,
        ) as real) + delta * (chosen_sum(words, levels, n) as real)) + (lower * (set_bits(
            words,
            n,
        ) as real) + lower * (set_bits(words, n) as real)) - delta * (level_sum(levels, n) as real)
            - lower * (n as real),
    decreases n,
{
    if n > 0 {
        law_chosen_levels_give_the_signed_sum(words, levels, lower, delta, n - 1);
        let l = levels[n - 1] as real;
        let bit = mask::bit_at(words, n - 1);
        let c = chosen_sum(words, levels, n - 1);
        let s = set_bits(words, n - 1);
        let a = level_sum(levels, n - 1);
        lemma_more(delta, a as real, l);
        assert((a + levels[n - 1]) as real == a as real + l);
        lemma_more(lower, (n - 1) as real, 1real);
        assert(n as real == (n - 1) as real + 1real);
        assert(lower * 1real == lower) by (nonlinear_arith);
        if bit {
            lemma_more(delta, c as real, l);
            assert((c + levels[n - 1]) as real == c as real + l);
            lemma_more(lower, s as real, 1real);
            assert((s + 1) as real == s as real + 1real);
        }
    } else {
        assert(delta * 0real == 0real) by (nonlinear_arith);
        assert(lower * 0real == 0real) by (nonlinear_arith);
    }
}

/// The product with a packed query is that of the code with what the levels of the query
/// stand for: times the root of the dimension it is their sum, each with the sign that the
/// code gives it. This is told of sums and products that need no rounding before the last
/// step.
pub proof fn law_packed_product_is_that_of_the_levels<M: Fn(Step) -> u32>(
    calc: M,
    q: PackedQuery,
    words: Seq<u64>,
    levels: Seq<u32>,
    product: real,
)
    requires
        rounding::rounds(calc),
        rounding::is_number(q.lower),
        rounding::is_number(q.delta),
        q.padded_dim == levels.len(),
        q.sum_quantized == level_sum(levels, levels.len() as int),
        q.sum_quantized < 0x100_0000,
        0 < levels.len() < 0x100_0000,
        rounding::has_bits(2real * rounding::number(q.delta)),
        rounding::has_bits(2real * rounding::number(q.lower)),
        ({
            let n = levels.len() as int;
            let l = rounding::number(q.lower);
            let d = rounding::number(q.delta);
            let a = 2real * d * (chosen_sum(words, levels, n) as real);
            let b = 2real * l * (set_bits(words, n) as real);
            let c = d * (level_sum(levels, n) as real);
            let e = (n as real) * l;
            let root = arithmetic::answer(
                calc,
                Step::Sqrt(arithmetic::answer(calc, Step::Count(q.padded_dim as u64))),
            );
            &&& rounding::has_bits(a)
            &&& rounding::has_bits(b)
            &&& rounding::has_bits(c)
            &&& rounding::has_bits(e)
            &&& rounding::has_bits(a + b)
            &&& rounding::has_bits(a + b - c)
            &&& rounding::has_bits(a + b - c - e)
            &&& rounding::is_number(root)
            &&& rounding::number(root) != 0real
            &&& product * rounding::number(root) == levels_with_signs(words, levels, l, d, n)
        }),
    ensures
        rounding::is_rounded(
            product,
            packed_product(
                calc,
                q,
                set_bits(words, levels.len() as int),
                chosen_sum(words, levels, levels.len() as int),
            ),
        ),
{
    let n = levels.len() as int;
    let l = rounding::number(q.lower);
    let d = rounding::number(q.delta);
    let shared = chosen_sum(words, levels, n);
    let ones = set_bits(words, n);
    lemma_sums_are_counts(words, levels, n);
    law_chosen_levels_give_the_signed_sum(words, levels, l, d, n);
    rounding::lemma_constants();
    rounding::lemma_count(calc, q.padded_dim as u64);
    rounding::lemma_count(calc, shared as u64);
    rounding::lemma_count(calc, ones as u64);
    rounding::lemma_count(calc, q.sum_quantized);
    let dim = arithmetic::answer(calc, Step::Count(q.padded_dim as u64));
    let sc = arithmetic::answer(calc, Step::Count(shared as u64));
    let oc = arithmetic::answer(calc, Step::Count(ones as u64));
    let tc = arithmetic::answer(calc, Step::Count(q.sum_quantized));
    let dd = arithmetic::answer(calc, Step::Mul(TWO, q.delta));
    let ll = arithmetic::answer(calc, Step::Mul(TWO, q.lower));
    rounding::lemma_exact_step(calc, Step::Mul(TWO, q.delta), 2real * d);
    rounding::lemma_exact_step(calc, Step::Mul(TWO, q.lower), 2real * l);
    let a = 2real * d * (shared as real);
    let b = 2real * l * (ones as real);
    let c = d * (level_sum(levels, n) as real);
    let e = (n as real) * l;
    rounding::lemma_exact_step(calc, Step::Mul(dd, sc), a);
    rounding::lemma_exact_step(calc, Step::Mul(ll, oc), b);
    rounding::lemma_exact_step(calc, Step::Mul(q.delta, tc), c);
    rounding::lemma_exact_step(calc, Step::Mul(dim, q.lower), e);
    let ab = arithmetic::answer(calc, Step::Mul(dd, sc));
    let bb = arithmetic::answer(calc, Step::Mul(ll, oc));
    let cb = arithmetic::answer(calc, Step::Mul(q.delta, tc));
    let eb = arithmetic::answer(calc, Step::Mul(dim, q.lower));
    rounding::lemma_exact_step(calc, Step::Add(ab, bb), a + b);
    let sum = arithmetic::answer(calc, Step::Add(ab, bb));
    rounding::lemma_exact_step(calc, Step::Sub(sum, cb), a + b - c);
    let less = arithmetic::answer(calc, Step::Sub(sum, cb));
    rounding::lemma_exact_step(calc, Step::Sub(less, eb), a + b - c - e);
    let top = arithmetic::answer(calc, Step::Sub(less, eb));
    lemma_twice(d, shared as real);
    lemma_twice(l, ones as real);
    assert((n as real) * l == l * (n as real)) by (nonlinear_arith);
    let root = arithmetic::answer(calc, Step::Sqrt(dim));
    assert(rounding::number(top) == levels_with_signs(words, levels, l, d, n));
    assert(rounding::comes_to(Step::Div(top, root), product));
}

proof fn lemma_twice(d: real, x: real)
    ensures
        2real * d * x == d * x + d * x,
{
    assert(2real * d * x == d * x + d * x) by (nonlinear_arith);
}

/// A step of the scale is a fifteenth of the way from the lowest coordinate to the highest.
/// This is told of a way that needs no rounding.
pub proof fn law_steps_share_out_the_scale<M: Fn(Step) -> u32>(calc: M, data: Seq<u32>, step: real)
    requires
        rounding::rounds(calc),
        data.len() > 0,
        forall|k: int| 0 <= k < data.len() ==> rounding::is_number(#[trigger] data[k]),
        ({
            let way = rounding::number(highest_of(data, data.len() as int)) - rounding::number(
                lowest_of(data, data.len() as int),
            );
            rounding::has_bits(way) && step * 15real == way
        }),
    ensures
        rounding::is_rounded(step, step_size(calc, data)),
{
    let n = data.len() as int;
    law_scale_covers_the_coordinates(data, n, 0);
    rounding::lemma_fifteen();
    let high = highest_of(data, n);
    let low = lowest_of(data, n);
    let way = rounding::number(high) - rounding::number(low);
    rounding::lemma_exact_step(calc, Step::Sub(high, low), way);
    let d = arithmetic::answer(calc, Step::Sub(high, low));
    assert(rounding::comes_to(Step::Div(d, FIFTEEN), step));
}

} // verus!
