//! Numbers as the ranker sees them: IEEE 754 binary64 values, held by their
//! bit pattern and compared through an integer that orders them as the values
//! themselves are ordered.
//!
//! A pattern has a sign bit, eleven exponent bits and fifty-two fraction
//! bits. [`value`] says which number a pattern stands for, [`order_key`] is
//! what the ranker compares, and [`lemma_key_orders_as_value`] shows that the
//! two agree.

use vstd::arithmetic::power2::{
    lemma_pow2_pos, lemma_pow2_strictly_increases, lemma_pow2_unfold, pow2,
};
use vstd::prelude::*;

verus! {

/// The lowest bit pattern whose sign bit is set.
pub const SIGN_BIT: u64 = 0x8000_0000_0000_0000;

/// The bit pattern of positive infinity: every exponent bit set, no fraction
/// bit set. It is also the largest magnitude that is a number.
pub const INFINITY_BITS: u64 = 0x7FF0_0000_0000_0000;

/// The pattern without its sign bit.
pub open spec fn magnitude(bits: u64) -> int {
    bits as int % SIGN_BIT as int
}

/// Whether the sign bit is set.
pub open spec fn is_negative(bits: u64) -> bool {
    bits >= SIGN_BIT
}

/// Whether the pattern encodes no number at all: a magnitude beyond that of
/// infinity.
pub open spec fn is_nan(bits: u64) -> bool {
    magnitude(bits) > INFINITY_BITS
}

/// The integer by which a pattern is ordered.
///
/// Binary64 is a sign-and-magnitude format: a larger magnitude is a number
/// further from zero. The key is the magnitude with the sign applied. It
/// orders patterns as their values are ordered, and gives both zeros the
/// key 0.
pub open spec fn order_key(bits: u64) -> int {
    if is_negative(bits) {
        -magnitude(bits)
    } else {
        magnitude(bits)
    }
}

/// The weight of the bit that a normal number's significand has in front of
/// its fraction: one more than the largest fraction.
pub const HIDDEN_BIT: u64 = 0x0010_0000_0000_0000;

/// The exponent bits, as a number.
pub open spec fn exponent_field(bits: u64) -> int {
    magnitude(bits) / HIDDEN_BIT as int
}

/// The fraction bits, as a number.
pub open spec fn fraction_field(bits: u64) -> int {
    magnitude(bits) % HIDDEN_BIT as int
}

/// The significand, counted in units of its last bit: the fraction alone
/// where the exponent bits are all clear, else the fraction behind the hidden
/// bit.
pub open spec fn significand(bits: u64) -> int {
    if exponent_field(bits) == 0 {
        fraction_field(bits)
    } else {
        HIDDEN_BIT + fraction_field(bits)
    }
}

/// How many times the unit of the significand doubles from the smallest
/// exponent to that of the pattern.
pub open spec fn doublings(bits: u64) -> nat {
    if exponent_field(bits) == 0 {
        0
    } else {
        (exponent_field(bits) - 1) as nat
    }
}

/// The size of the number that the pattern stands for, sign aside, counted in
/// units of the smallest positive number of the format. Every finite number
/// is a whole multiple of that unit. For an infinity the same formula gives a
/// size beyond every finite one.
pub open spec fn size(bits: u64) -> int {
    significand(bits) * pow2(doublings(bits))
}

/// The number that the pattern stands for, in the same units. A NaN stands
/// for no number; what the formula gives for one is of no concern, as no
/// [`Number`] holds one.
pub open spec fn value(bits: u64) -> int {
    if is_negative(bits) {
        -size(bits)
    } else {
        size(bits)
    }
}

/// The size grows with the magnitude.
proof fn lemma_size_increases(smaller: u64, larger: u64)
    requires
        magnitude(smaller) < magnitude(larger),
    ensures
        0 <= size(smaller) < size(larger),
{
    let low = pow2(doublings(smaller)) as int;
    let high = pow2(doublings(larger)) as int;
    lemma_pow2_pos(doublings(smaller));
    lemma_pow2_pos(doublings(larger));
    assert(0 <= significand(smaller) * low) by (nonlinear_arith)
        requires
            0 <= significand(smaller),
            0 < low,
    ;
    if exponent_field(smaller) == exponent_field(larger) {
        // The same exponent, and a smaller fraction.
        assert(significand(smaller) * low < significand(larger) * low) by (nonlinear_arith)
            requires
                significand(smaller) < significand(larger),
                0 < low,
        ;
    } else {
        // A smaller exponent: even with all fraction bits set, the smaller
        // number stays below the hidden bit at the larger exponent.
        assert(HIDDEN_BIT * high <= significand(larger) * high) by (nonlinear_arith)
            requires
                HIDDEN_BIT <= significand(larger),
                0 < high,
        ;
        if exponent_field(smaller) == 0 {
            if 0 < doublings(larger) {
                lemma_pow2_strictly_increases(0, doublings(larger));
            }
            assert(significand(smaller) * low < HIDDEN_BIT * high) by (nonlinear_arith)
                requires
                    0 <= significand(smaller) < HIDDEN_BIT,
                    0 < low <= high,
            ;
        } else {
            let next = pow2((doublings(smaller) + 1) as nat) as int;
            lemma_pow2_unfold((doublings(smaller) + 1) as nat);
            if doublings(smaller) + 1 < doublings(larger) {
                lemma_pow2_strictly_increases(
                    (doublings(smaller) + 1) as nat,
                    doublings(larger),
                );
            }
            assert(significand(smaller) * low < HIDDEN_BIT * next) by (nonlinear_arith)
                requires
                    significand(smaller) < 2 * HIDDEN_BIT,
                    next == 2 * low,
                    0 < low,
            ;
            assert(HIDDEN_BIT * next <= HIDDEN_BIT * high) by (nonlinear_arith)
                requires
                    next <= high,
            ;
        }
    }
}

/// The key orders the patterns as the numbers that they stand for are
/// ordered, and is the same for two patterns exactly where the number is.
pub proof fn lemma_key_orders_as_value(left: u64, right: u64)
    ensures
        order_key(left) < order_key(right) <==> value(left) < value(right),
        order_key(left) == order_key(right) <==> value(left) == value(right),
{
    if magnitude(left) < magnitude(right) {
        lemma_size_increases(left, right);
    } else if magnitude(right) < magnitude(left) {
        lemma_size_increases(right, left);
    }
    if magnitude(left) > 0 {
        lemma_size_increases(0, left);
    }
    if magnitude(right) > 0 {
        lemma_size_increases(0, right);
    }
    assert(size(0) == 0) by {
        assert(significand(0) * pow2(doublings(0)) == 0) by (nonlinear_arith)
            requires
                significand(0) == 0,
        ;
    }
}

/// A binary64 value that is a number: finite or infinite, never NaN.
#[derive(Clone, Copy, Debug)]
pub struct Number {
    bits: u64,
}

impl View for Number {
    type V = u64;

    /// The bit pattern.
    closed spec fn view(&self) -> u64 {
        self.bits
    }
}

impl Number {
    #[verifier::type_invariant]
    spec fn is_a_number(self) -> bool {
        !is_nan(self.bits)
    }

    /// The number with the given bit pattern, or `None` where the pattern is
    /// a NaN.
    pub fn from_bits(bits: u64) -> (number: Option<Number>)
        ensures
            is_nan(bits) ==> number is None,
            !is_nan(bits) ==> (number matches Some(n) && n@ == bits),
    {
        if bits % SIGN_BIT > INFINITY_BITS {
            None
        } else {
            Some(Number { bits })
        }
    }

    /// Positive zero.
    pub fn zero() -> (number: Number)
        ensures
            number@ == 0,
    {
        Number { bits: 0 }
    }

    /// Positive infinity.
    pub fn infinity() -> (number: Number)
        ensures
            number@ == INFINITY_BITS,
    {
        Number { bits: INFINITY_BITS }
    }

    /// The bit pattern, which is never that of a NaN.
    pub fn to_bits(&self) -> (bits: u64)
        ensures
            bits == self@,
            !is_nan(bits),
    {
        proof {
            use_type_invariant(self);
        }
        self.bits
    }

    /// The integer by which this number is ordered.
    pub fn key(&self) -> (key: i64)
        ensures
            key == order_key(self@),
    {
        let magnitude: u64 = self.bits % SIGN_BIT;
        if self.bits >= SIGN_BIT {
            -(magnitude as i64)
        } else {
            magnitude as i64
        }
    }
}

} // verus!
