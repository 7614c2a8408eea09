//! Weights as binary64 bit patterns: classification, validation, and the
//! key that an accepted weight is ranked by.

use crate::source::KeySource;
use vstd::prelude::*;

verus! {

/// Bit pattern of the largest finite binary64 value.
pub const MAX_FINITE: u64 = 0x7FEF_FFFF_FFFF_FFFF;

/// Key of every zero-weight item: no key of a finite quotient is above it.
pub const SENTINEL_KEY: u64 = MAX_FINITE;

/// Why a weight cannot take part in sampling.
#[derive(Debug, Clone, Copy, PartialEq, Eq, Structural)]
pub enum HasInvalidWeights {
    NaN,
    Infinite,
    Negative,
}

/// The sign bit of a bit pattern is set.
pub open spec fn is_sign_negative(bits: u64) -> bool {
    bits >> 63 == 1
}

/// The eleven exponent bits of a bit pattern.
pub open spec fn exponent_field(bits: u64) -> u64 {
    (bits >> 52) & 0x7FF
}

/// The fifty-two fraction bits of a bit pattern.
pub open spec fn fraction_field(bits: u64) -> u64 {
    bits & 0x000F_FFFF_FFFF_FFFF
}

/// The bit pattern encodes not-a-number.
pub open spec fn is_nan(bits: u64) -> bool {
    exponent_field(bits) == 0x7FF && fraction_field(bits) != 0
}

/// The bit pattern encodes positive or negative infinity.
pub open spec fn is_infinite(bits: u64) -> bool {
    exponent_field(bits) == 0x7FF && fraction_field(bits) == 0
}

/// The defect of a weight, if it has one. Not-a-number is reported before
/// infinity, and infinity before a set sign bit, so negative infinity is
/// `Infinite` and negative zero is `Negative`.
pub open spec fn weight_fault(bits: u64) -> Option<HasInvalidWeights> {
    if is_nan(bits) {
        Some(HasInvalidWeights::NaN)
    } else if is_infinite(bits) {
        Some(HasInvalidWeights::Infinite)
    } else if is_sign_negative(bits) {
        Some(HasInvalidWeights::Negative)
    } else {
        None
    }
}

/// The text that describes a defect.
pub open spec fn fault_text(fault: HasInvalidWeights) -> Seq<char> {
    match fault {
        HasInvalidWeights::NaN => "Cannot sample over values with NaN weights."@,
        HasInvalidWeights::Infinite => "Cannot sample over values with infinite weights."@,
        HasInvalidWeights::Negative => "Cannot sample over values with negative weights."@,
    }
}

impl HasInvalidWeights {
    /// Accepts zero and every positive finite weight, and names the defect
    /// of any other.
    pub fn check_weight(weight: u64) -> (r: Result<(), HasInvalidWeights>)
        ensures
            r == match weight_fault(weight) {
                Some(fault) => Err::<(), HasInvalidWeights>(fault),
                None => Ok::<(), HasInvalidWeights>(()),
            },
    {
        let magnitude: u64 = weight & 0x7FFF_FFFF_FFFF_FFFF;
        assert(magnitude > 0x7FF0_0000_0000_0000 <==> is_nan(weight)) by (bit_vector)
            requires
                magnitude == weight & 0x7FFF_FFFF_FFFF_FFFF,
        ;
        assert(magnitude == 0x7FF0_0000_0000_0000 <==> is_infinite(weight)) by (bit_vector)
            requires
                magnitude == weight & 0x7FFF_FFFF_FFFF_FFFF,
        ;
        assert(weight != magnitude <==> is_sign_negative(weight)) by (bit_vector)
            requires
                magnitude == weight & 0x7FFF_FFFF_FFFF_FFFF,
        ;
        if magnitude > 0x7FF0_0000_0000_0000 {
            Err(HasInvalidWeights::NaN)
        } else if magnitude == 0x7FF0_0000_0000_0000 {
            Err(HasInvalidWeights::Infinite)
        } else if weight != magnitude {
            Err(HasInvalidWeights::Negative)
        } else {
            Ok(())
        }
    }

    /// The defect in words.
    pub fn message(&self) -> (text: String)
        ensures
            text@ == fault_text(*self),
    {
        match self {
            HasInvalidWeights::NaN => "Cannot sample over values with NaN weights.".to_owned(),
            HasInvalidWeights::Infinite => {
                "Cannot sample over values with infinite weights.".to_owned()
            },
            HasInvalidWeights::Negative => {
                "Cannot sample over values with negative weights.".to_owned()
            },
        }
    }
}

/// The source can be asked for the key of `weight`, should the weight call
/// for one: only accepted, non-zero weights do.
pub open spec fn draw_ready<D: FnMut(u64) -> u64>(source: KeySource<D>, weight: u64) -> bool {
    weight_fault(weight) is None && weight != 0 ==> source.ready_for(weight)
}

/// An item of the accepted weight `weight` was ranked by `key`, which took
/// the source from `before` to `after`. A zero weight gets the sentinel and
/// leaves the source alone; any other weight gets the answer to one
/// question.
pub open spec fn ranked<D: FnMut(u64) -> u64>(
    before: KeySource<D>,
    after: KeySource<D>,
    weight: u64,
    key: u64,
) -> bool {
    if weight == 0 {
        key == SENTINEL_KEY && after == before
    } else {
        after.asked_once(&before, weight, key)
    }
}

/// Validates a weight and then ranks it. A rejected weight leaves the
/// source as it was.
pub fn priority_key<D: FnMut(u64) -> u64>(weight: u64, source: &mut KeySource<D>) -> (r: Result<
    u64,
    HasInvalidWeights,
>)
    requires
        draw_ready(*old(source), weight),
    ensures
        match weight_fault(weight) {
            Some(fault) => r == Err::<u64, HasInvalidWeights>(fault) && *final(source) == *old(
                source,
            ),
            None => r is Ok && ranked(*old(source), *final(source), weight, r->Ok_0),
        },
{
    match HasInvalidWeights::check_weight(weight) {
        Err(fault) => Err(fault),
        Ok(()) => {
            if weight == 0 {
                Ok(SENTINEL_KEY)
            } else {
                Ok(source.next_key(weight))
            }
        },
    }
}

/// A weight is accepted exactly when its bit pattern, read as an integer,
/// is at most that of the largest finite value. Every other pattern has one
/// defect, by the range it lies in: the two infinities, the negative
/// numbers from negative zero down, and not-a-number for all the rest.
pub proof fn lemma_weight_classes(bits: u64)
    ensures
        weight_fault(bits) is None <==> bits <= MAX_FINITE,
        weight_fault(bits) == Some(HasInvalidWeights::Infinite) <==> bits == 0x7FF0_0000_0000_0000
            || bits == 0xFFF0_0000_0000_0000,
        weight_fault(bits) == Some(HasInvalidWeights::Negative) <==> 0x8000_0000_0000_0000 <= bits
            < 0xFFF0_0000_0000_0000,
        weight_fault(bits) == Some(HasInvalidWeights::NaN) <==> 0x7FF0_0000_0000_0000 < bits
            < 0x8000_0000_0000_0000 || 0xFFF0_0000_0000_0000 < bits,
{
    assert(is_nan(bits) <==> 0x7FF0_0000_0000_0000 < bits < 0x8000_0000_0000_0000
        || 0xFFF0_0000_0000_0000 < bits) by (bit_vector);
    assert(is_infinite(bits) <==> bits == 0x7FF0_0000_0000_0000 || bits
        == 0xFFF0_0000_0000_0000) by (bit_vector);
    assert(is_sign_negative(bits) <==> 0x8000_0000_0000_0000 <= bits) by (bit_vector);
}

/// Bit patterns with a clear sign bit order as integers exactly as their
/// exponents and then their fractions do, which is how the numbers they
/// encode are ordered. Keys, never negative, can so be compared as
/// integers.
pub proof fn lemma_keys_order_as_numbers(a: u64, b: u64)
    requires
        !is_sign_negative(a),
        !is_sign_negative(b),
    ensures
        a < b <==> exponent_field(a) < exponent_field(b) || (exponent_field(a) == exponent_field(b)
            && fraction_field(a) < fraction_field(b)),
{
    assert(!is_sign_negative(a) && !is_sign_negative(b) ==> (a < b <==> exponent_field(a)
        < exponent_field(b) || (exponent_field(a) == exponent_field(b) && fraction_field(a)
        < fraction_field(b)))) by (bit_vector);
}

} // verus!
