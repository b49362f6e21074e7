//! Arithmetic on numbers that are held by their bits, as single-precision numbers
//! are. Each single operation is the caller's; which ones are carried out, on what
//! and in which order, is settled by the functions that ask for them.

use vstd::prelude::*;

use crate::vector;

verus! {

/// An operation on numbers that are held by their bits.
#[derive(Clone, Copy, Debug)]
pub enum Step {
    Add(u32, u32),
    Sub(u32, u32),
    Mul(u32, u32),
    Div(u32, u32),
    Sqrt(u32),
    /// The natural logarithm.
    Ln(u32),
    /// A whole number.
    Count(u64),
    /// The level, from 0 to 15, of a value on a scale that starts at `lower` and has
    /// steps of `delta`, rounded up where `noise`, of 24 bits, says so.
    Level { value: u32, lower: u32, delta: u32, noise: u32 },
}

/// The arithmetic has one answer for every operation.
pub open spec fn is_arithmetic<M: Fn(Step) -> u32>(calc: M) -> bool {
    &&& forall|step: Step| #[trigger] call_requires(calc, (step,))
    &&& forall|step: Step, a: u32, b: u32| #[trigger]
        call_ensures(calc, (step,), a) && #[trigger] call_ensures(calc, (step,), b) ==> a == b
}

/// The answer for an operation.
pub open spec fn answer<M: Fn(Step) -> u32>(calc: M, step: Step) -> u32 {
    choose|a: u32| call_ensures(calc, (step,), a)
}

pub(crate) fn compute<M: Copy + Fn(Step) -> u32>(calc: M, step: Step) -> (r: u32)
    requires
        is_arithmetic(calc),
    ensures
        r == answer(calc, step),
{
    let r: u32 = calc(step);
    assert(call_ensures(calc, (step,), r));
    assert(call_ensures(calc, (step,), answer(calc, step)));
    r
}

/// Zero with a negative sign, by its bits: the number that changes no other when it
/// is added, and the sum of no numbers.
pub const NEGATIVE_ZERO: u32 = 0x8000_0000;

/// A half, by its bits.
pub const HALF: u32 = 0x3f00_0000;

/// One, by its bits.
pub const ONE: u32 = 0x3f80_0000;

/// Two, by its bits.
pub const TWO: u32 = 0x4000_0000;

/// A number with the opposite sign.
pub open spec fn negated(bits: u32) -> u32 {
    if bits < vector::SCORE_SIGN {
        (bits + vector::SCORE_SIGN) as u32
    } else {
        (bits - vector::SCORE_SIGN) as u32
    }
}

/// A number without its sign.
pub open spec fn magnitude(bits: u32) -> u32 {
    bits % vector::SCORE_SIGN
}

/// Zero, of either sign.
pub open spec fn is_zero(bits: u32) -> bool {
    magnitude(bits) == 0
}

pub(crate) fn negate(bits: u32) -> (r: u32)
    ensures
        r == negated(bits),
{
    if bits < vector::SCORE_SIGN {
        bits + vector::SCORE_SIGN
    } else {
        bits - vector::SCORE_SIGN
    }
}

} // verus!
