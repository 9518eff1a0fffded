//! Order among coordinates.
//!
//! A coordinate is kept as the 32 bits of an IEEE 754 single-precision number:
//! one sign bit, then the magnitude. Comparing two of them needs no arithmetic
//! on the numbers themselves: magnitudes grow with their bit patterns, and the
//! sign bit mirrors the line. The two zeros compare equal, and a pattern that
//! is not a number compares with nothing, itself included.

use vstd::prelude::*;

verus! {

/// The sign bit.
pub const SIGN_BIT: u32 = 0x8000_0000;

/// Positive infinity.
pub const POS_INFINITY: u32 = 0x7F80_0000;

/// Negative infinity.
pub const NEG_INFINITY: u32 = 0xFF80_0000;

/// The pattern without its sign bit.
pub open spec fn magnitude(x: u32) -> int {
    if x >= SIGN_BIT {
        x - SIGN_BIT
    } else {
        x as int
    }
}

/// Patterns above infinity in magnitude stand for no number.
pub open spec fn is_nan(x: u32) -> bool {
    magnitude(x) > POS_INFINITY
}

/// Where a number stands on the line: its magnitude, negated under the sign bit.
pub open spec fn rank(x: u32) -> int {
    if x >= SIGN_BIT {
        -magnitude(x)
    } else {
        magnitude(x)
    }
}

/// `a <= b` as numbers.
pub open spec fn le(a: u32, b: u32) -> bool {
    !is_nan(a) && !is_nan(b) && rank(a) <= rank(b)
}

/// The smaller of two: `a` unless `a <= b` fails.
pub open spec fn meet(a: u32, b: u32) -> u32 {
    if le(a, b) {
        a
    } else {
        b
    }
}

/// The larger of two: `a` unless `a >= b` fails.
pub open spec fn join(a: u32, b: u32) -> u32 {
    if le(b, a) {
        a
    } else {
        b
    }
}

/// What folding `meet` over `vals` from positive infinity leaves.
pub open spec fn lowest(vals: Seq<u32>) -> u32
    decreases vals.len(),
{
    if vals.len() == 0 {
        POS_INFINITY
    } else {
        meet(lowest(vals.drop_last()), vals.last())
    }
}

/// What folding `join` over `vals` from negative infinity leaves.
pub open spec fn highest(vals: Seq<u32>) -> u32
    decreases vals.len(),
{
    if vals.len() == 0 {
        NEG_INFINITY
    } else {
        join(highest(vals.drop_last()), vals.last())
    }
}

/// No value of `vals` is a pattern that stands for no number.
pub open spec fn all_numbers(vals: Seq<u32>) -> bool {
    forall|i: int| 0 <= i < vals.len() ==> !is_nan(#[trigger] vals[i])
}

/// Among numbers the folds are bounds: every value lies between `lowest` and
/// `highest`, and both are numbers themselves.
pub proof fn lemma_bounds_enclose(vals: Seq<u32>)
    requires
        all_numbers(vals),
    ensures
        !is_nan(lowest(vals)),
        !is_nan(highest(vals)),
        forall|i: int|
            0 <= i < vals.len() ==> le(lowest(vals), #[trigger] vals[i]) && le(
                vals[i],
                highest(vals),
            ),
    decreases vals.len(),
{
    if vals.len() > 0 {
        let front = vals.drop_last();
        assert forall|i: int| 0 <= i < front.len() implies !is_nan(#[trigger] front[i]) by {
            assert(front[i] == vals[i]);
        }
        lemma_bounds_enclose(front);
        assert forall|i: int| 0 <= i < vals.len() implies le(lowest(vals), #[trigger] vals[i])
            && le(vals[i], highest(vals)) by {
            assert(!is_nan(vals[i]));
            assert(!is_nan(vals.last()));
            if i < front.len() {
                assert(front[i] == vals[i]);
            }
        }
    }
}

/// The folds make nothing up: each leaves one of the values, or the
/// infinity it started from.
pub proof fn lemma_bounds_attained(vals: Seq<u32>)
    ensures
        lowest(vals) == POS_INFINITY || exists|i: int|
            0 <= i < vals.len() && lowest(vals) == #[trigger] vals[i],
        highest(vals) == NEG_INFINITY || exists|i: int|
            0 <= i < vals.len() && highest(vals) == #[trigger] vals[i],
    decreases vals.len(),
{
    if vals.len() > 0 {
        let front = vals.drop_last();
        let last = vals.len() - 1;
        lemma_bounds_attained(front);
        if lowest(vals) != POS_INFINITY {
            if lowest(vals) == vals.last() {
                assert(lowest(vals) == vals[last]);
            } else {
                let i = choose|i: int| 0 <= i < front.len() && lowest(front) == #[trigger] front[i];
                assert(lowest(vals) == vals[i]);
            }
        }
        if highest(vals) != NEG_INFINITY {
            if highest(vals) == vals.last() {
                assert(highest(vals) == vals[last]);
            } else {
                let i = choose|i: int|
                    0 <= i < front.len() && highest(front) == #[trigger] front[i];
                assert(highest(vals) == vals[i]);
            }
        }
    }
}

/// Whether the pattern stands for no number.
pub fn not_a_number(x: u32) -> (r: bool)
    ensures
        r == is_nan(x),
{
    let m = if x >= SIGN_BIT {
        x - SIGN_BIT
    } else {
        x
    };
    m > POS_INFINITY
}

/// Whether `a <= b` as numbers.
pub fn less_eq(a: u32, b: u32) -> (r: bool)
    ensures
        r == le(a, b),
{
    if not_a_number(a) || not_a_number(b) {
        return false;
    }
    if a >= SIGN_BIT {
        // `a` is zero or below: under any `b` without the sign bit, and under
        // a `b` with it when its own magnitude is the larger.
        b < SIGN_BIT || b <= a
    } else {
        // `a` is zero or above: only the other zero can lie at or over it
        // from across the sign bit.
        if b >= SIGN_BIT {
            a == 0 && b == SIGN_BIT
        } else {
            a <= b
        }
    }
}

/// The smaller of two, as `meet` has it.
pub fn lesser(a: u32, b: u32) -> (r: u32)
    ensures
        r == meet(a, b),
{
    if less_eq(a, b) {
        a
    } else {
        b
    }
}

/// The larger of two, as `join` has it.
pub fn greater(a: u32, b: u32) -> (r: u32)
    ensures
        r == join(a, b),
{
    if less_eq(b, a) {
        a
    } else {
        b
    }
}

} // verus!
