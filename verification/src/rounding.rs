//! What single-precision numbers stand for, and what it takes for an arithmetic to
//! carry its operations out up to rounding.

use vstd::arithmetic::power2;
use vstd::arithmetic::power2::pow2;
use vstd::prelude::*;

use crate::vector::numbers;
use crate::order::Order;
use crate::value::ValueView;
use crate::value;
use crate::arithmetic;
use crate::arithmetic::Step;
use crate::vector;

verus! {

/// The bits stand for a number: they are neither those of an infinity nor of a NaN.
pub open spec fn is_number(bits: u32) -> bool {
    bits % vector::SCORE_SIGN < vector::SCORE_INFINITY
}

/// How often the least positive number goes into the number with this magnitude.
pub open spec fn units(magnitude: nat) -> nat {
    let exponent = magnitude / 0x80_0000;
    let fraction = magnitude % 0x80_0000;
    if exponent == 0 {
        fraction
    } else {
        (0x80_0000 + fraction) * pow2((exponent - 1) as nat)
    }
}

/// The number that the bits stand for.
pub open spec fn number(bits: u32) -> real {
    let size = units((bits % vector::SCORE_SIGN) as nat) as real / pow2(149) as real;
    if bits < vector::SCORE_SIGN {
        size
    } else {
        0real - size
    }
}

/// There are bits that stand for this number.
pub open spec fn has_bits(x: real) -> bool {
    exists|b: u32| is_number(b) && #[trigger] number(b) == x
}

/// The bits stand for a number next to `x`, or for `x` itself: no other number is
/// between the two.
pub open spec fn is_rounded(x: real, bits: u32) -> bool {
    &&& vector::score_rank(bits) is Some
    &&& forall|b: u32| is_number(b) && #[trigger] number(b) <= x ==> vector::score_place(b)
        <= vector::score_place(bits)
    &&& forall|b: u32| is_number(b) && #[trigger] number(b) >= x ==> vector::score_place(b)
        >= vector::score_place(bits)
}

/// What an operation on numbers comes to. A logarithm, and a level on a scale, are not
/// spoken of.
pub open spec fn comes_to(step: Step, x: real) -> bool {
    match step {
        Step::Add(a, b) => is_number(a) && is_number(b) && x == number(a) + number(b),
        Step::Sub(a, b) => is_number(a) && is_number(b) && x == number(a) - number(b),
        Step::Mul(a, b) => is_number(a) && is_number(b) && x == number(a) * number(b),
        Step::Div(a, b) => is_number(a) && is_number(b) && number(b) != 0real && x * number(b)
            == number(a),
        Step::Sqrt(a) => is_number(a) && x >= 0real && x * x == number(a),
        Step::Ln(_) => false,
        Step::Count(n) => x == n as real,
        Step::Level { .. } => false,
    }
}

/// The arithmetic rounds what an operation comes to, and rounding keeps the order.
pub open spec fn rounds<M: Fn(Step) -> u32>(calc: M) -> bool {
    &&& forall|step: Step, x: real| #[trigger]
        comes_to(step, x) ==> is_rounded(x, arithmetic::answer(calc, step))
    &&& forall|s: Step, x: real, t: Step, y: real| #[trigger]
        comes_to(s, x) && #[trigger] comes_to(t, y) && x <= y ==> vector::score_place(
            arithmetic::answer(calc, s),
        ) <= vector::score_place(arithmetic::answer(calc, t))
}

proof fn lemma_units_step(m: nat)
    ensures
        units(m) < units(m + 1),
{
    let e = m / 0x80_0000;
    let f = m % 0x80_0000;
    assert(m == e * 0x80_0000 + f && 0 <= f < 0x80_0000);
    if f + 1 < 0x80_0000 {
        assert((m + 1) / 0x80_0000 == e && (m + 1) % 0x80_0000 == f + 1);
        if e > 0 {
            power2::lemma_pow2_pos((e - 1) as nat);
            let p = pow2((e - 1) as nat);
            assert((0x80_0000 + f) * p < (0x80_0000 + (f + 1)) * p) by (nonlinear_arith)
                requires
                    p > 0,
            ;
            assert(units(m) == (0x80_0000 + f) * p);
            assert(units(m + 1) == (0x80_0000 + (f + 1)) * p);
        }
    } else {
        assert((m + 1) / 0x80_0000 == e + 1 && (m + 1) % 0x80_0000 == 0);
        power2::lemma_pow2_pos(e);
        if e > 0 {
            power2::lemma_pow2_pos((e - 1) as nat);
            power2::lemma_pow2_unfold(e);
            let p = pow2((e - 1) as nat);
            assert((0x80_0000 + f) * p < 0x80_0000 * (2 * p)) by (nonlinear_arith)
                requires
                    p > 0,
                    f == 0x7f_ffff,
            ;
            assert(units(m) == (0x80_0000 + f) * p);
            assert(units(m + 1) == 0x80_0000 * pow2(e));
        } else {
            power2::lemma2_to64();
            assert(units(m + 1) == 0x80_0000 * pow2(0));
        }
    }
}

proof fn lemma_units_grow(a: nat, b: nat)
    requires
        a < b,
    ensures
        units(a) < units(b),
    decreases b - a,
{
    lemma_units_step((b - 1) as nat);
    if a < b - 1 {
        lemma_units_grow(a, (b - 1) as nat);
    }
}

/// How the numbers are ordered is how their bits are: a number is below another
/// exactly if its place is.
pub proof fn lemma_places(a: u32, b: u32)
    requires
        is_number(a),
        is_number(b),
    ensures
        (number(a) < number(b)) == (vector::score_place(a) < vector::score_place(b)),
        (number(a) == number(b)) == (vector::score_place(a) == vector::score_place(b)),
{
    let s = pow2(149) as real;
    power2::lemma_pow2_pos(149);
    let x = (a % vector::SCORE_SIGN) as nat;
    let y = (b % vector::SCORE_SIGN) as nat;
    if x < y {
        lemma_units_grow(x, y);
    } else if y < x {
        lemma_units_grow(y, x);
    }
    if x > 0 {
        lemma_units_grow(0, x);
    }
    if y > 0 {
        lemma_units_grow(0, y);
    }
    let u = units(x) as real;
    let v = units(y) as real;
    assert(units(0) == 0);
    assert((u < v) == (u / s < v / s)) by (nonlinear_arith)
        requires
            s > 0real,
    ;
    assert((u == v) == (u / s == v / s)) by (nonlinear_arith)
        requires
            s > 0real,
    ;
    assert((u > 0real) == (u / s > 0real)) by (nonlinear_arith)
        requires
            s > 0real,
    ;
    assert((v > 0real) == (v / s > 0real)) by (nonlinear_arith)
        requires
            s > 0real,
    ;
    assert(0real / s == 0real) by (nonlinear_arith)
        requires
            s > 0real,
    ;
}

/// What has bits is not changed by rounding.
pub proof fn lemma_exact(x: real, bits: u32)
    requires
        is_rounded(x, bits),
        has_bits(x),
    ensures
        is_number(bits),
        number(bits) == x,
{
    let b = choose|b: u32| is_number(b) && #[trigger] number(b) == x;
    assert(vector::score_place(b) == vector::score_place(bits));
    assert(is_number(bits));
    lemma_places(b, bits);
}

/// Zero, of either sign.
pub proof fn lemma_zeros(bits: u32)
    requires
        arithmetic::is_zero(bits),
    ensures
        is_number(bits),
        number(bits) == 0real,
{
    power2::lemma_pow2_pos(149);
    let s = pow2(149) as real;
    assert(0real / s == 0real) by (nonlinear_arith)
        requires
            s > 0real,
    ;
}

/// A number is zero exactly if its bits are those of a zero.
pub proof fn lemma_zero_bits(bits: u32)
    requires
        is_number(bits),
    ensures
        (number(bits) == 0real) == arithmetic::is_zero(bits),
{
    lemma_zeros(0);
    lemma_places(bits, 0);
}

/// The bits of the opposite number.
pub proof fn lemma_negated(bits: u32)
    requires
        is_number(bits),
    ensures
        is_number(arithmetic::negated(bits)),
        number(arithmetic::negated(bits)) == 0real - number(bits),
{
    assert(arithmetic::negated(bits) % vector::SCORE_SIGN == bits % vector::SCORE_SIGN);
}

/// A product of whole numbers is the same among the other numbers.
pub proof fn lemma_product_of_counts(n: nat, m: nat)
    ensures
        (n * m) as real == (n as real) * (m as real),
    decreases n,
{
    let y = m as real;
    if n == 0 {
        assert(0real * y == 0real) by (nonlinear_arith);
        assert(n * m == 0) by (nonlinear_arith)
            requires
                n == 0,
        ;
    } else {
        let k = (n - 1) as nat;
        lemma_product_of_counts(k, m);
        assert(n * m == k * m + m) by (nonlinear_arith)
            requires
                n == k + 1,
        ;
        let x = k as real;
        assert((x + 1real) * y == x * y + y) by (nonlinear_arith);
        assert(n as real == x + 1real);
    }
}

/// A whole number of at most 24 binary digits has bits.
pub proof fn lemma_whole(n: nat, k: nat)
    requires
        k <= 23,
        pow2(k) <= n < pow2(k + 1),
    ensures
        has_bits(n as real),
{
    let step = pow2((23 - k) as nat);
    power2::lemma_pow2_pos(k);
    power2::lemma_pow2_pos((23 - k) as nat);
    power2::lemma_pow2_adds(k, (23 - k) as nat);
    power2::lemma_pow2_adds(1, k);
    power2::lemma2_to64();
    let f = (n - pow2(k)) * step;
    assert(0 <= f < 0x80_0000) by (nonlinear_arith)
        requires
            f == (n - pow2(k)) * step,
            0 <= n - pow2(k) < pow2(k),
            pow2(k) * step == 0x80_0000,
            step > 0,
    ;
    let m = (127 + k) * 0x80_0000 + f;
    let b = m as u32;
    assert(m / 0x80_0000 == 127 + k && m % 0x80_0000 == f) by (nonlinear_arith)
        requires
            m == (127 + k) * 0x80_0000 + f,
            0 <= f < 0x80_0000,
    ;
    assert(0 <= m < vector::SCORE_INFINITY);
    assert(b == m);
    assert(b % vector::SCORE_SIGN == m);
    let p = pow2((126 + k) as nat);
    power2::lemma_pow2_pos((126 + k) as nat);
    power2::lemma_pow2_adds((23 - k) as nat, (126 + k) as nat);
    assert((23 - k) as nat + (126 + k) as nat == 149);
    assert(step * p == pow2(149));
    assert(0x80_0000 + f == n * step) by (nonlinear_arith)
        requires
            f == (n - pow2(k)) * step,
            pow2(k) * step == 0x80_0000,
    ;
    assert(units(m as nat) == (0x80_0000 + f) * p);
    assert((n * step) * p == n * (step * p)) by (nonlinear_arith);
    let s = pow2(149) as real;
    power2::lemma_pow2_pos(149);
    assert(units(m as nat) == n * pow2(149));
    let u = units(m as nat) as real;
    let x = n as real;
    lemma_product_of_counts(n, pow2(149));
    assert(u == x * s);
    assert(u / s == x) by (nonlinear_arith)
        requires
            u == x * s,
            s > 0real,
    ;
    assert(number(b) == x);
    assert(is_number(b));
}

/// A whole number up to two to the power 24 has bits, so that counting up to there is
/// exact.
pub proof fn lemma_counts(n: nat)
    requires
        n < 0x100_0000,
    ensures
        has_bits(n as real),
{
    if n == 0 {
        lemma_zeros(0);
        assert(number(0) == 0real);
    } else {
        power2::lemma2_to64();
        lemma_counts_below(n, 24);
    }
}

proof fn lemma_counts_below(n: nat, k: nat)
    requires
        0 < n < pow2(k),
        k <= 24,
    ensures
        has_bits(n as real),
    decreases k,
{
    power2::lemma2_to64();
    if k > 0 {
        if n >= pow2((k - 1) as nat) {
            lemma_whole(n, (k - 1) as nat);
        } else {
            lemma_counts_below(n, (k - 1) as nat);
        }
    }
}

/// What the constants stand for.
pub proof fn lemma_constants()
    ensures
        is_number(arithmetic::ONE) && number(arithmetic::ONE) == 1real,
        is_number(arithmetic::TWO) && number(arithmetic::TWO) == 2real,
        is_number(arithmetic::HALF) && 2real * number(arithmetic::HALF) == 1real,
        is_number(arithmetic::NEGATIVE_ZERO) && number(arithmetic::NEGATIVE_ZERO) == 0real,
{
    lemma_zeros(arithmetic::NEGATIVE_ZERO);
    power2::lemma2_to64();
    power2::lemma_pow2_pos(149);
    power2::lemma_pow2_adds(23, 126);
    power2::lemma_pow2_unfold(126);
    power2::lemma_pow2_unfold(127);
    let s = pow2(149) as real;
    assert(arithmetic::ONE as nat / 0x80_0000 == 127 && arithmetic::ONE as nat % 0x80_0000 == 0);
    assert(arithmetic::TWO as nat / 0x80_0000 == 128 && arithmetic::TWO as nat % 0x80_0000 == 0);
    assert(arithmetic::HALF as nat / 0x80_0000 == 126 && arithmetic::HALF as nat % 0x80_0000 == 0);
    let one = units(arithmetic::ONE as nat);
    let two = units(arithmetic::TWO as nat);
    let half = units(arithmetic::HALF as nat);
    assert(one == 0x80_0000 * pow2(126));
    assert(two == 0x80_0000 * pow2(127));
    assert(half == 0x80_0000 * pow2(125));
    assert(one == pow2(149));
    assert(two == 2 * pow2(149));
    assert(2 * half == pow2(149));
    assert(one as real / s == 1real) by (nonlinear_arith)
        requires
            one as real == s,
            s > 0real,
    ;
    assert(two as real / s == 2real) by (nonlinear_arith)
        requires
            two as real == 2real * s,
            s > 0real,
    ;
    assert(2real * (half as real / s) == 1real) by (nonlinear_arith)
        requires
            2real * (half as real) == s,
            s > 0real,
    ;
}

/// What an operation comes to, where it has bits, is what the arithmetic gives.
pub proof fn lemma_exact_step<M: Fn(Step) -> u32>(calc: M, step: Step, x: real)
    requires
        rounds(calc),
        comes_to(step, x),
        has_bits(x),
    ensures
        is_number(arithmetic::answer(calc, step)),
        number(arithmetic::answer(calc, step)) == x,
{
    lemma_exact(x, arithmetic::answer(calc, step));
}

/// One score is higher than another exactly if the number that it stands for is.
pub proof fn law_higher_score_is_higher_number(a: u32, b: u32)
    requires
        is_number(a),
        is_number(b),
    ensures
        vector::beats(a, b) <==> number(a) > number(b),
{
    lemma_places(a, b);
    lemma_places(b, a);
}

/// A count is a number, which is its own value where that has bits.
pub proof fn lemma_count<M: Fn(Step) -> u32>(calc: M, n: u64)
    requires
        rounds(calc),
    ensures
        is_rounded(n as real, arithmetic::answer(calc, Step::Count(n))),
        is_number(arithmetic::answer(calc, Step::Count(n))),
        n < 0x100_0000 ==> number(arithmetic::answer(calc, Step::Count(n))) == n as real,
        n > 0 ==> number(arithmetic::answer(calc, Step::Count(n))) >= 1real,
        number(arithmetic::answer(calc, Step::Count(n))) >= 0real,
{
    let x = n as real;
    let bits = arithmetic::answer(calc, Step::Count(n));
    assert(comes_to(Step::Count(n), x));
    lemma_large();
    assert(x <= pow2(64) as real) by {
        power2::lemma2_to64();
    }
    assert(number(LARGE) >= x);
    lemma_zeros(0);
    assert(number(0) <= x);
    assert(is_number(bits));
    lemma_places(bits, 0);
    if n < 0x100_0000 {
        lemma_counts(n as nat);
        lemma_exact(x, bits);
    }
    if n > 0 {
        lemma_constants();
        assert(number(arithmetic::ONE) <= x);
        lemma_places(bits, arithmetic::ONE);
    }
}

/// Two to the power 64, by its bits.
pub const LARGE: u32 = 0x5f80_0000;

proof fn lemma_large()
    ensures
        is_number(LARGE),
        number(LARGE) == pow2(64) as real,
{
    power2::lemma2_to64();
    power2::lemma_pow2_pos(149);
    power2::lemma_pow2_adds(23, 190);
    power2::lemma_pow2_adds(64, 149);
    assert(LARGE as nat / 0x80_0000 == 191 && LARGE as nat % 0x80_0000 == 0);
    let u = units(LARGE as nat);
    assert(u == 0x80_0000 * pow2(190));
    assert(u == pow2(64) * pow2(149));
    lemma_product_of_counts(pow2(64), pow2(149));
    let s = pow2(149) as real;
    let x = pow2(64) as real;
    let y = u as real;
    assert(y / s == x) by (nonlinear_arith)
        requires
            y == x * s,
            s > 0real,
    ;
}

/// A quotient is not below another one that has no larger dividend and no smaller
/// divisor.
pub proof fn lemma_quotients(x: real, y: real, a: real, b: real, c: real, d: real)
    requires
        x * b == a,
        y * d == c,
        0real <= a <= c,
        b >= d > 0real,
    ensures
        x <= y,
{
    if x > y {
        if y < 0real {
            let z = -y;
            assert(z * d > 0real) by (nonlinear_arith)
                requires
                    z > 0real,
                    d > 0real,
            ;
            assert((-y) * d == -(y * d)) by (nonlinear_arith);
        }
        let e = x - y;
        assert(e * b > 0real) by (nonlinear_arith)
            requires
                e > 0real,
                b > 0real,
        ;
        assert((x - y) * b == x * b - y * b) by (nonlinear_arith);
        let g = b - d;
        assert(y * g >= 0real) by (nonlinear_arith)
            requires
                y >= 0real,
                g >= 0real,
        ;
        assert(y * (b - d) == y * b - y * d) by (nonlinear_arith);
    }
}

/// There is a quotient of any number by another that is not zero.
pub proof fn lemma_quotient(a: real, b: real) -> (x: real)
    requires
        b != 0real,
    ensures
        x * b == a,
{
    let x = a / b;
    assert((a / b) * b == a) by (nonlinear_arith)
        requires
            b != 0real,
    ;
    x
}

// ---------------------------------------------------------------------------
// Double precision, and half precision
// ---------------------------------------------------------------------------

/// How often the least positive double goes into the one with this magnitude.
pub open spec fn double_units(magnitude: nat) -> nat {
    let exponent = magnitude / 0x10_0000_0000_0000;
    let fraction = magnitude % 0x10_0000_0000_0000;
    if exponent == 0 {
        fraction
    } else {
        (0x10_0000_0000_0000 + fraction) * pow2((exponent - 1) as nat)
    }
}

/// The number that the bits of a double stand for.
pub open spec fn double(bits: u64) -> real {
    let size = double_units((bits % value::SIGN) as nat) as real / pow2(1074) as real;
    if bits < value::SIGN {
        size
    } else {
        0real - size
    }
}

proof fn lemma_double_units_step(m: nat)
    ensures
        double_units(m) < double_units(m + 1),
{
    let e = m / 0x10_0000_0000_0000;
    let f = m % 0x10_0000_0000_0000;
    assert(m == e * 0x10_0000_0000_0000 + f && 0 <= f < 0x10_0000_0000_0000);
    if f + 1 < 0x10_0000_0000_0000 {
        assert((m + 1) / 0x10_0000_0000_0000 == e && (m + 1) % 0x10_0000_0000_0000 == f + 1);
        if e > 0 {
            power2::lemma_pow2_pos((e - 1) as nat);
            let p = pow2((e - 1) as nat);
            assert((0x10_0000_0000_0000 + f) * p < (0x10_0000_0000_0000 + (f + 1)) * p)
                by (nonlinear_arith)
                requires
                    p > 0,
            ;
            assert(double_units(m) == (0x10_0000_0000_0000 + f) * p);
            assert(double_units(m + 1) == (0x10_0000_0000_0000 + (f + 1)) * p);
        }
    } else {
        assert((m + 1) / 0x10_0000_0000_0000 == e + 1 && (m + 1) % 0x10_0000_0000_0000 == 0);
        power2::lemma_pow2_pos(e);
        if e > 0 {
            power2::lemma_pow2_pos((e - 1) as nat);
            power2::lemma_pow2_unfold(e);
            let p = pow2((e - 1) as nat);
            assert((0x10_0000_0000_0000 + f) * p < 0x10_0000_0000_0000 * (2 * p))
                by (nonlinear_arith)
                requires
                    p > 0,
                    f == 0xf_ffff_ffff_ffff,
            ;
            assert(double_units(m) == (0x10_0000_0000_0000 + f) * p);
            assert(double_units(m + 1) == 0x10_0000_0000_0000 * pow2(e));
        } else {
            power2::lemma2_to64();
            assert(double_units(m + 1) == 0x10_0000_0000_0000 * pow2(0));
        }
    }
}

proof fn lemma_double_units_grow(a: nat, b: nat)
    requires
        a < b,
    ensures
        double_units(a) < double_units(b),
    decreases b - a,
{
    lemma_double_units_step((b - 1) as nat);
    if a < b - 1 {
        lemma_double_units_grow(a, (b - 1) as nat);
    }
}

/// Floats compare as the numbers that they stand for.
pub proof fn law_floats_compare_by_number(a: u64, b: u64)
    requires
        value::float_is_finite(a),
        value::float_is_finite(b),
    ensures
        value::scalar_order(ValueView::Float(a), ValueView::Float(b)) == Some(Order::Less)
            <==> double(a) < double(b),
        value::scalar_order(ValueView::Float(a), ValueView::Float(b)) == Some(Order::Equal)
            <==> double(a) == double(b),
        value::scalar_order(ValueView::Float(a), ValueView::Float(b)) == Some(Order::Greater)
            <==> double(a) > double(b),
{
    let s = pow2(1074) as real;
    power2::lemma_pow2_pos(1074);
    let x = (a % value::SIGN) as nat;
    let y = (b % value::SIGN) as nat;
    if x < y {
        lemma_double_units_grow(x, y);
    } else if y < x {
        lemma_double_units_grow(y, x);
    }
    if x > 0 {
        lemma_double_units_grow(0, x);
    }
    if y > 0 {
        lemma_double_units_grow(0, y);
    }
    let u = double_units(x) as real;
    let v = double_units(y) as real;
    assert(double_units(0) == 0);
    assert((u < v) == (u / s < v / s)) by (nonlinear_arith)
        requires
            s > 0real,
    ;
    assert((u == v) == (u / s == v / s)) by (nonlinear_arith)
        requires
            s > 0real,
    ;
    assert((u > 0real) == (u / s > 0real)) by (nonlinear_arith)
        requires
            s > 0real,
    ;
    assert((v > 0real) == (v / s > 0real)) by (nonlinear_arith)
        requires
            s > 0real,
    ;
    assert(0real / s == 0real) by (nonlinear_arith)
        requires
            s > 0real,
    ;
}

proof fn lemma_two_to(n: nat)
    ensures
        value::two_to(n) == pow2(n),
    decreases n,
{
    if n == 0 {
        power2::lemma2_to64();
    } else {
        lemma_two_to((n - 1) as nat);
        power2::lemma_pow2_unfold(n);
    }
}

/// An integer of at most 53 binary digits becomes the double that stands for it, so that
/// it compares with floats, and adds up with them, by its value.
pub proof fn law_integers_become_their_doubles(i: i64)
    requires
        -0x20_0000_0000_0000 < i < 0x20_0000_0000_0000,
    ensures
        value::float_of_int(i) <= u64::MAX,
        double(value::float_of_int(i) as u64) == i as real,
        value::float_is_finite(value::float_of_int(i) as u64),
{
    let m: nat = if i >= 0 {
        i as nat
    } else {
        (-i) as nat
    };
    power2::lemma2_to64();
    power2::lemma_pow2_pos(1074);
    let s = pow2(1074) as real;
    if m == 0 {
        assert(0real / s == 0real) by (nonlinear_arith)
            requires
                s > 0real,
        ;
    } else {
        let n = value::bit_length(m);
        value::lemma_bit_length(m);
        lemma_two_to(n);
        lemma_two_to((n - 1) as nat);
        lemma_two_to(52);
        if n > 53 {
            lemma_two_to(53);
            value::lemma_two_to_mono(53, (n - 1) as nat);
            power2::lemma2_to64();
            assert(pow2(53) == 0x20_0000_0000_0000) by {
                power2::lemma_pow2_adds(21, 32);
            }
        }
        assert(pow2(52) == 0x10_0000_0000_0000) by {
            power2::lemma_pow2_adds(20, 32);
        }
        let step = pow2((53 - n) as nat);
        lemma_two_to((53 - n) as nat);
        power2::lemma_pow2_pos((53 - n) as nat);
        power2::lemma_pow2_adds((n - 1) as nat, (53 - n) as nat);
        power2::lemma_pow2_unfold(n);
        let low = pow2((n - 1) as nat);
        assert(low * step == 0x10_0000_0000_0000);
        let big = m * step;
        assert(0x10_0000_0000_0000 <= big < 0x20_0000_0000_0000) by (nonlinear_arith)
            requires
                big == m * step,
                low <= m < 2 * low,
                low * step == 0x10_0000_0000_0000,
                step > 0,
        ;
        let f = (big - 0x10_0000_0000_0000) as nat;
        let e = (n + 1022) as nat;
        let mag = value::float_magnitude(m);
        assert(mag == (n + 1021) * 0x10_0000_0000_0000 + big);
        assert(mag == e * 0x10_0000_0000_0000 + f);
        assert(mag / 0x10_0000_0000_0000 == e && mag % 0x10_0000_0000_0000 == f)
            by (nonlinear_arith)
            requires
                mag == e * 0x10_0000_0000_0000 + f,
                0 <= f < 0x10_0000_0000_0000,
        ;
        assert(mag < value::INFINITY);
        let p = pow2((n + 1021) as nat);
        power2::lemma_pow2_adds((53 - n) as nat, (n + 1021) as nat);
        assert((53 - n) as nat + (n + 1021) as nat == 1074);
        assert(step * p == pow2(1074));
        assert(double_units(mag) == (0x10_0000_0000_0000 + f) * p);
        assert((m * step) * p == m * (step * p)) by (nonlinear_arith);
        assert(double_units(mag) == m * pow2(1074));
        lemma_product_of_counts(m, pow2(1074));
        let x = m as real;
        let u = double_units(mag) as real;
        assert(u == x * s);
        assert(u / s == x) by (nonlinear_arith)
            requires
                u == x * s,
                s > 0real,
        ;
        let bits = value::float_of_int(i) as u64;
        assert(value::float_of_int(i) <= u64::MAX);
        assert(bits % value::SIGN == mag);
    }
}

/// The number that the bits of a half-precision number stand for, in units of two to the
/// power -24, without its sign.
pub open spec fn half_units(bits: u16) -> nat {
    let exponent = ((bits % 0x8000) / 0x400) as nat;
    let fraction = (bits % 0x400) as nat;
    if exponent == 0 {
        fraction
    } else {
        (0x400 + fraction) * pow2((exponent - 1) as nat)
    }
}

/// Widening a half-precision number keeps what it stands for.
pub proof fn law_widening_keeps_the_number(bits: u16)
    requires
        bits % 0x8000 < 0x7c00,
    ensures
        numbers::half_as_single(bits) <= u32::MAX,
        is_number(numbers::half_as_single(bits) as u32),
        number(numbers::half_as_single(bits) as u32) * (pow2(24) as real) == (if bits < 0x8000 {
            half_units(bits) as real
        } else {
            0real - half_units(bits) as real
        }),
{
    let exponent = ((bits % 0x8000) / 0x400) as nat;
    let fraction = (bits % 0x400) as nat;
    power2::lemma2_to64();
    power2::lemma_pow2_pos(149);
    power2::lemma_pow2_adds(24, 125);
    let s = pow2(149) as real;
    let t = pow2(24) as real;
    let q = pow2(125) as real;
    lemma_product_of_counts(pow2(24), pow2(125));
    let mag: nat;
    let whole = half_units(bits);
    if exponent > 0 {
        mag = (exponent + 112) * 0x80_0000 + fraction * 0x2000;
        let f = fraction * 0x2000;
        assert(mag / 0x80_0000 == exponent + 112 && mag % 0x80_0000 == f);
        let p = pow2((exponent + 111) as nat);
        assert(units(mag) == (0x80_0000 + f) * p);
        let r = pow2((exponent - 1) as nat);
        power2::lemma_pow2_adds((exponent - 1) as nat, 112);
        power2::lemma_pow2_adds(13, 112);
        assert((exponent - 1) as nat + 112 == (exponent + 111) as nat);
        assert(p == r * pow2(112));
        assert(pow2(125) == 0x2000 * pow2(112));
        let h = 0x400 + fraction;
        assert(0x80_0000 + f == h * 0x2000);
        assert((h * 0x2000) * (r * pow2(112)) == (h * r) * (0x2000 * pow2(112)))
            by (nonlinear_arith);
        assert(units(mag) == whole * pow2(125));
    } else if fraction == 0 {
        mag = 0;
        assert(whole == 0);
        assert(0 * pow2(125) == 0);
    } else {
        let n = value::bit_length(fraction);
        value::lemma_bit_length(fraction);
        lemma_two_to(n);
        lemma_two_to((n - 1) as nat);
        if n > 10 {
            value::lemma_two_to_mono(10, (n - 1) as nat);
            lemma_two_to(10);
        }
        let step = pow2((24 - n) as nat);
        lemma_two_to((24 - n) as nat);
        power2::lemma_pow2_pos((24 - n) as nat);
        power2::lemma_pow2_adds((n - 1) as nat, (24 - n) as nat);
        power2::lemma_pow2_unfold(n);
        let low = pow2((n - 1) as nat);
        let big = fraction * step;
        assert(0x80_0000 <= big < 0x100_0000) by (nonlinear_arith)
            requires
                big == fraction * step,
                low <= fraction < 2 * low,
                low * step == 0x80_0000,
                step > 0,
        ;
        mag = (n + 101) * 0x80_0000 + big;
        let f = (big - 0x80_0000) as nat;
        assert(mag / 0x80_0000 == n + 102 && mag % 0x80_0000 == f);
        let p = pow2((n + 101) as nat);
        assert(units(mag) == (0x80_0000 + f) * p);
        power2::lemma_pow2_adds((24 - n) as nat, (n + 101) as nat);
        assert((24 - n) as nat + (n + 101) as nat == 125);
        assert((fraction * step) * p == fraction * (step * p)) by (nonlinear_arith);
        assert(units(mag) == whole * pow2(125));
    }
    assert(mag < vector::SCORE_INFINITY);
    let wide = numbers::half_as_single(bits);
    let sign: nat = if bits >= 0x8000 {
        0x8000_0000
    } else {
        0
    };
    assert(wide == sign + mag);
    let b = wide as u32;
    assert(b % vector::SCORE_SIGN == mag);
    lemma_product_of_counts(whole, pow2(125));
    let x = whole as real;
    let u = units(mag) as real;
    assert(u == x * q);
    assert(s == t * q);
    power2::lemma_pow2_pos(24);
    power2::lemma_pow2_pos(125);
    lemma_scaled(u, x, q, t, s);
}

proof fn lemma_scaled(u: real, x: real, q: real, t: real, s: real)
    requires
        u == x * q,
        s == t * q,
        q > 0real,
        t > 0real,
        s > 0real,
    ensures
        (u / s) * t == x,
        (0real - u / s) * t == 0real - x,
{
    let y = u / s;
    assert(y * s == u) by (nonlinear_arith)
        requires
            y == u / s,
            s > 0real,
    ;
    assert(y * (t * q) == (y * t) * q) by (nonlinear_arith);
    let z = y * t;
    if z != x {
        let d = z - x;
        assert(d * q != 0real) by (nonlinear_arith)
            requires
                d != 0real,
                q > 0real,
        ;
        assert((z - x) * q == z * q - x * q) by (nonlinear_arith);
    }
    assert((0real - y) * t == 0real - y * t) by (nonlinear_arith);
}

/// An integer of more digits than a double has becomes the double of what it is rounded to.
pub proof fn law_large_integers_become_rounded_doubles(i: i64, shift: nat)
    requires
        i != i64::MIN,
        shift > 0,
        ({
            let m: nat = if i >= 0 {
                i as nat
            } else {
                (-i) as nat
            };
            value::bit_length(m) == 53 + shift
        }),
    ensures
        ({
            let m: nat = if i >= 0 {
                i as nat
            } else {
                (-i) as nat
            };
            let size = (value::nearest(m, shift) * pow2(shift)) as real;
            &&& value::float_of_int(i) <= u64::MAX
            &&& double(value::float_of_int(i) as u64) == if i >= 0 {
                size
            } else {
                0real - size
            }
        }),
{
    let m: nat = if i >= 0 {
        i as nat
    } else {
        (-i) as nat
    };
    let n = value::bit_length(m);
    value::lemma_bit_length(m);
    lemma_two_to(n);
    lemma_two_to((n - 1) as nat);
    lemma_two_to(52);
    lemma_two_to(shift);
    power2::lemma2_to64();
    power2::lemma_pow2_pos(1074);
    power2::lemma_pow2_pos(shift);
    power2::lemma_pow2_adds(52, shift);
    power2::lemma_pow2_adds(53, shift);
    power2::lemma_pow2_adds(20, 32);
    power2::lemma_pow2_adds(21, 32);
    assert(pow2(52) == 0x10_0000_0000_0000 && pow2(53) == 0x20_0000_0000_0000);
    let unit = pow2(shift);
    let q = m / unit;
    assert((n - 1) as nat == 52 + shift);
    assert(0x10_0000_0000_0000 <= q < 0x20_0000_0000_0000) by (nonlinear_arith)
        requires
            q == m / unit,
            unit > 0,
            0x10_0000_0000_0000 * unit <= m < 0x20_0000_0000_0000 * unit,
    ;
    let c = value::nearest(m, shift);
    assert(q <= c <= q + 1);
    if n >= 64 {
        value::lemma_two_to_mono(63, (n - 1) as nat);
        lemma_two_to(63);
        power2::lemma_pow2_adds(31, 32);
    }
    assert(n <= 63);
    let mag = value::float_magnitude(m);
    assert(mag == (n + 1021) * 0x10_0000_0000_0000 + c);
    assert(mag < value::INFINITY);
    let p = pow2((n + 1021) as nat);
    power2::lemma_pow2_adds(shift, 1074);
    assert((n + 1021) as nat == shift + 1074);
    if c < 0x20_0000_0000_0000 {
        let f = (c - 0x10_0000_0000_0000) as nat;
        let e = (n + 1022) as nat;
        assert(mag == e * 0x10_0000_0000_0000 + f);
        assert(mag / 0x10_0000_0000_0000 == e && mag % 0x10_0000_0000_0000 == f)
            by (nonlinear_arith)
            requires
                mag == e * 0x10_0000_0000_0000 + f,
                0 <= f < 0x10_0000_0000_0000,
        ;
        assert(double_units(mag) == c * p);
    } else {
        let e = (n + 1023) as nat;
        assert(mag == e * 0x10_0000_0000_0000);
        assert(mag / 0x10_0000_0000_0000 == e && mag % 0x10_0000_0000_0000 == 0)
            by (nonlinear_arith)
            requires
                mag == e * 0x10_0000_0000_0000,
        ;
        power2::lemma_pow2_unfold((n + 1022) as nat);
        assert(pow2((n + 1022) as nat) == 2 * p);
        assert(double_units(mag) == 0x10_0000_0000_0000 * (2 * p));
        assert(c == 0x20_0000_0000_0000);
        assert(0x10_0000_0000_0000 * (2 * p) == 0x20_0000_0000_0000 * p) by (nonlinear_arith);
        assert(double_units(mag) == c * p);
    }
    let s = pow2(1074) as real;
    assert(c * (unit * pow2(1074)) == (c * unit) * pow2(1074)) by (nonlinear_arith);
    lemma_product_of_counts(c * unit, pow2(1074));
    let x = (c * unit) as real;
    let u = double_units(mag) as real;
    assert(u == x * s);
    assert(u / s == x) by (nonlinear_arith)
        requires
            u == x * s,
            s > 0real,
    ;
    let bits = value::float_of_int(i) as u64;
    assert(value::float_of_int(i) <= u64::MAX);
    assert(bits % value::SIGN == mag);
}

/// The bits of fifteen.
pub proof fn lemma_fifteen()
    ensures
        is_number(0x4170_0000),
        number(0x4170_0000) == 15real,
{
    power2::lemma2_to64();
    power2::lemma_pow2_pos(149);
    power2::lemma_pow2_adds(20, 129);
    let bits: nat = 0x4170_0000;
    assert(bits / 0x80_0000 == 130 && bits % 0x80_0000 == 0x70_0000);
    let p = pow2(129);
    let u = units(bits);
    assert(u == 0xf0_0000 * p);
    assert(pow2(149) == 0x10_0000 * p);
    assert(u == 15 * pow2(149));
    lemma_product_of_counts(15, pow2(149));
    let s = pow2(149) as real;
    let v = u as real;
    assert(v == 15real * s);
    assert(v / s == 15real) by (nonlinear_arith)
        requires
            v == 15real * s,
            s > 0real,
    ;
}

} // verus!
