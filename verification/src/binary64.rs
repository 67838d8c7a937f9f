//! Reading IEEE-754 double-precision bit patterns with integer arithmetic:
//! sign, exponent and fraction fields, the non-number test, and the whole
//! part of a value that lies below a bound.
use vstd::arithmetic::div_mod::lemma_div_is_ordered;
use vstd::arithmetic::div_mod::lemma_div_is_ordered_by_denominator;
use vstd::arithmetic::power2::lemma2_to64;
use vstd::arithmetic::power2::lemma2_to64_rest;
use vstd::arithmetic::power2::lemma_pow2_pos;
use vstd::arithmetic::power2::lemma_pow2_strictly_increases;
use vstd::arithmetic::power2::pow2;
use vstd::bits::lemma_u64_shr_is_div;
use vstd::prelude::*;

verus! {

/// The quiet not-a-number that stands for "no value".
pub const NAN: u64 = 0x7ff8_0000_0000_0000;

/// Whether the sign bit is set.
pub open spec fn is_negative(bits: u64) -> bool {
    bits >= 0x8000_0000_0000_0000
}

/// The eleven-bit exponent field.
pub open spec fn exponent_field(bits: u64) -> nat {
    ((bits / 0x10_0000_0000_0000) % 0x800) as nat
}

/// The fifty-two-bit fraction field.
pub open spec fn fraction_field(bits: u64) -> nat {
    (bits % 0x10_0000_0000_0000) as nat
}

/// Whether the pattern is a not-a-number.
pub open spec fn is_nan(bits: u64) -> bool {
    exponent_field(bits) == 0x7ff && fraction_field(bits) != 0
}

/// Whether the pattern is a number: neither an infinity nor a not-a-number.
pub open spec fn is_finite(bits: u64) -> bool {
    exponent_field(bits) != 0x7ff
}

/// The significand of a finite pattern, as an integer: the fraction field,
/// with the implicit leading bit unless the exponent field is zero.
pub open spec fn significand(bits: u64) -> nat {
    if exponent_field(bits) == 0 {
        fraction_field(bits)
    } else {
        0x10_0000_0000_0000 + fraction_field(bits)
    }
}

/// The power of two by which the significand of a finite pattern is scaled:
/// its magnitude is `significand * 2^scale`.
pub open spec fn scale(bits: u64) -> int {
    if exponent_field(bits) == 0 {
        -1074
    } else {
        exponent_field(bits) - 1075
    }
}

/// The magnitude of a finite pattern, rounded down to a whole number.
pub open spec fn whole_part(bits: u64) -> nat {
    if scale(bits) >= 0 {
        significand(bits) * pow2(scale(bits) as nat)
    } else {
        significand(bits) / pow2((-scale(bits)) as nat)
    }
}

/// Whether the value of the pattern is at least zero and less than `bound`.
/// Both zeros are at least zero; an infinity or a not-a-number is in no
/// range.
pub open spec fn in_range(bits: u64, bound: nat) -> bool {
    &&& is_finite(bits)
    &&& !is_negative(bits) || significand(bits) == 0
    &&& whole_part(bits) < bound
}

/// Whether `bits` is a not-a-number.
pub fn is_nan_bits(bits: u64) -> (b: bool)
    ensures
        b == is_nan(bits),
{
    assert(((bits & 0x7fff_ffff_ffff_ffff) > 0x7ff0_0000_0000_0000) <==> ((bits
        / 0x10_0000_0000_0000) % 0x800 == 0x7ff && bits % 0x10_0000_0000_0000 != 0))
        by (bit_vector);
    (bits & 0x7fff_ffff_ffff_ffff) > 0x7ff0_0000_0000_0000
}

/// The whole part of the value of `bits`, if that value is at least zero and
/// less than `bound`.
pub fn whole_below(bits: u64, bound: u32) -> (r: Option<u32>)
    ensures
        match r {
            Some(whole) => in_range(bits, bound as nat) && whole == whole_part(bits),
            None => !in_range(bits, bound as nat),
        },
{
    let exponent: u64 = (bits >> 52) & 0x7ff;
    let fraction: u64 = bits & 0xf_ffff_ffff_ffff;
    proof {
        assert((bits >> 52) & 0x7ff == (bits / 0x10_0000_0000_0000) % 0x800) by (bit_vector);
        assert(bits & 0xf_ffff_ffff_ffff == bits % 0x10_0000_0000_0000) by (bit_vector);
        assert(fraction < 0x10_0000_0000_0000);
        lemma2_to64();
        lemma2_to64_rest();
    }
    if exponent == 0x7ff {
        return None;
    }
    if bits >= 0x8000_0000_0000_0000 && (exponent != 0 || fraction != 0) {
        return None;
    }
    if exponent < 1023 {
        proof {
            let down = (-scale(bits)) as nat;
            assert(down >= 53);
            if down > 53 {
                lemma_pow2_strictly_increases(53, down);
            }
            assert(significand(bits) < pow2(down));
            assert(whole_part(bits) == 0) by (nonlinear_arith)
                requires
                    whole_part(bits) == significand(bits) / pow2(down),
                    significand(bits) < pow2(down),
            ;
        }
        return if bound > 0 {
            Some(0)
        } else {
            None
        };
    }
    if exponent >= 1055 {
        proof {
            lemma_large_whole_part(bits);
        }
        return None;
    }
    let shift: u64 = 1075 - exponent;
    let whole: u64 = (fraction | 0x10_0000_0000_0000) >> shift;
    proof {
        assert(fraction | 0x10_0000_0000_0000 == fraction + 0x10_0000_0000_0000) by (bit_vector)
            requires
                fraction < 0x10_0000_0000_0000,
        ;
        lemma_u64_shr_is_div((fraction | 0x10_0000_0000_0000), shift);
        assert(whole == whole_part(bits));
        assert(whole < 0x1_0000_0000) by (bit_vector)
            requires
                whole == (fraction | 0x10_0000_0000_0000) >> shift,
                fraction < 0x10_0000_0000_0000,
                21 <= shift <= 52,
        ;
    }
    if whole < bound as u64 {
        Some(whole as u32)
    } else {
        None
    }
}

/// A finite pattern whose exponent field is 1055 or more has a magnitude of
/// at least 2^32.
proof fn lemma_large_whole_part(bits: u64)
    requires
        1055 <= exponent_field(bits),
    ensures
        whole_part(bits) >= 0x1_0000_0000,
{
    lemma2_to64();
    lemma2_to64_rest();
    let m = significand(bits) as int;
    assert(m >= 0x10_0000_0000_0000);
    if scale(bits) >= 0 {
        let up = scale(bits) as nat;
        lemma_pow2_pos(up);
        assert(m * pow2(up) >= m) by (nonlinear_arith)
            requires
                m >= 0,
                pow2(up) >= 1,
        ;
    } else {
        let down = (-scale(bits)) as nat;
        assert(1 <= down <= 20);
        if down < 20 {
            lemma_pow2_strictly_increases(down, 20);
        }
        lemma_pow2_pos(down);
        lemma_div_is_ordered_by_denominator(m, pow2(down) as int, pow2(20) as int);
        lemma_div_is_ordered(0x10_0000_0000_0000, m, pow2(20) as int);
        assert(0x10_0000_0000_0000int / 0x10_0000 == 0x1_0000_0000);
    }
}

} // verus!
