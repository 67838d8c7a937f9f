//! Reading IEEE-754 single-precision bit patterns with integer arithmetic,
//! and widening them to double precision.
use crate::binary64;
use vstd::arithmetic::power2::lemma2_to64;
use vstd::arithmetic::power2::lemma_pow2_adds;
use vstd::arithmetic::power2::lemma_pow2_pos;
use vstd::arithmetic::power2::pow2;
use vstd::prelude::*;

verus! {

/// Whether the sign bit is set.
pub open spec fn is_negative(bits: u32) -> bool {
    bits >= 0x8000_0000
}

/// The eight-bit exponent field.
pub open spec fn exponent_field(bits: u32) -> nat {
    ((bits / 0x80_0000) % 0x100) as nat
}

/// The twenty-three-bit fraction field.
pub open spec fn fraction_field(bits: u32) -> nat {
    (bits % 0x80_0000) as nat
}

/// Whether the pattern is a not-a-number.
pub open spec fn is_nan(bits: u32) -> bool {
    exponent_field(bits) == 0xff && fraction_field(bits) != 0
}

/// Whether the pattern is a number: neither an infinity nor a not-a-number.
pub open spec fn is_finite(bits: u32) -> bool {
    exponent_field(bits) != 0xff
}

/// The significand of a finite pattern, as an integer: the fraction field,
/// with the implicit leading bit unless the exponent field is zero.
pub open spec fn significand(bits: u32) -> nat {
    if exponent_field(bits) == 0 {
        fraction_field(bits)
    } else {
        0x80_0000 + fraction_field(bits)
    }
}

/// The power of two by which the significand of a finite pattern is scaled:
/// its magnitude is `significand * 2^scale`.
pub open spec fn scale(bits: u32) -> int {
    if exponent_field(bits) == 0 {
        -149
    } else {
        exponent_field(bits) - 150
    }
}

/// Whether a double-precision pattern stands for the same thing as a
/// single-precision one. Both have the same sign. A number goes with the
/// number of the same magnitude, an infinity with an infinity, and a
/// not-a-number with the quiet not-a-number that keeps its payload in the
/// highest bits of the fraction.
pub open spec fn widens_to(single: u32, double: u64) -> bool {
    &&& binary64::is_negative(double) == is_negative(single)
    &&& if is_finite(single) {
        &&& binary64::is_finite(double)
        &&& binary64::scale(double) <= scale(single)
        &&& binary64::significand(double) == significand(single) * pow2(
            (scale(single) - binary64::scale(double)) as nat,
        )
    } else {
        &&& binary64::exponent_field(double) == 0x7ff
        &&& binary64::fraction_field(double) == if 0 < fraction_field(single) < 0x40_0000 {
            0x8_0000_0000_0000 + fraction_field(single) * 0x2000_0000
        } else {
            fraction_field(single) * 0x2000_0000
        }
    }
}

/// A double-precision pattern is known by its sign and its two fields.
pub proof fn lemma_fields_make_the_pattern(a: u64, b: u64)
    requires
        binary64::is_negative(a) == binary64::is_negative(b),
        binary64::exponent_field(a) == binary64::exponent_field(b),
        binary64::fraction_field(a) == binary64::fraction_field(b),
    ensures
        a == b,
{
    assert(a == b) by (bit_vector)
        requires
            (a >= 0x8000_0000_0000_0000) == (b >= 0x8000_0000_0000_0000),
            (a / 0x10_0000_0000_0000) % 0x800 == (b / 0x10_0000_0000_0000) % 0x800,
            a % 0x10_0000_0000_0000 == b % 0x10_0000_0000_0000,
    ;
}

/// A single-precision pattern widens to one double-precision pattern only.
pub proof fn lemma_widening_is_unique(single: u32, a: u64, b: u64)
    requires
        widens_to(single, a),
        widens_to(single, b),
    ensures
        a == b,
{
    if is_finite(single) && significand(single) != 0 {
        let m = significand(single) as int;
        let up_a = (scale(single) - binary64::scale(a)) as nat;
        let up_b = (scale(single) - binary64::scale(b)) as nat;
        lemma_widening_cannot_be_longer(m, a, b, up_a, up_b);
        lemma_widening_cannot_be_longer(m, b, a, up_b, up_a);
        assert(binary64::scale(a) == binary64::scale(b));
        assert(binary64::significand(a) == binary64::significand(b));
    } else if is_finite(single) {
        assert(0 * pow2((scale(single) - binary64::scale(a)) as nat) == 0);
        assert(0 * pow2((scale(single) - binary64::scale(b)) as nat) == 0);
    }
    lemma_fields_make_the_pattern(a, b);
}

/// Two finite patterns whose significands are `m * 2^i` and `m * 2^j`, and
/// whose scales differ the other way by as much, have `j` no larger than
/// `i`: else the second significand would need more than fifty-three bits.
proof fn lemma_widening_cannot_be_longer(m: int, a: u64, b: u64, i: nat, j: nat)
    requires
        m > 0,
        binary64::is_finite(a),
        binary64::is_finite(b),
        binary64::scale(a) - binary64::scale(b) == j - i,
        binary64::significand(a) == m * pow2(i),
        binary64::significand(b) == m * pow2(j),
    ensures
        j <= i,
{
    if i < j {
        lemma_pow2_adds(i, (j - i) as nat);
        lemma_pow2_adds((j - i - 1) as nat, 1);
        lemma2_to64();
        lemma_pow2_pos((j - i - 1) as nat);
        let x = binary64::significand(a) as int;
        let y = binary64::significand(b) as int;
        let d = pow2((j - i) as nat) as int;
        assert(d >= 2);
        assert(y == x * d) by (nonlinear_arith)
            requires
                x == m * pow2(i),
                y == m * (pow2(i) * d),
        ;
        assert(binary64::exponent_field(a) >= 2);
        assert(x >= 0x10_0000_0000_0000);
        assert(x * d >= 0x20_0000_0000_0000) by (nonlinear_arith)
            requires
                x >= 0x10_0000_0000_0000,
                d >= 2,
        ;
        assert(y < 0x20_0000_0000_0000);
    }
}

/// Whether `bits` is a not-a-number.
pub fn is_nan_bits(bits: u32) -> (b: bool)
    ensures
        b == is_nan(bits),
{
    assert(((bits & 0x7fff_ffff) > 0x7f80_0000) <==> ((bits / 0x80_0000) % 0x100 == 0xff && bits
        % 0x80_0000 != 0)) by (bit_vector);
    (bits & 0x7fff_ffff) > 0x7f80_0000
}

/// Puts a sign, an exponent field and a fraction field together.
fn pack(negative: bool, exponent: u64, fraction: u64) -> (out: u64)
    requires
        exponent < 0x800,
        fraction < 0x10_0000_0000_0000,
    ensures
        binary64::is_negative(out) == negative,
        binary64::exponent_field(out) == exponent,
        binary64::fraction_field(out) == fraction,
{
    let sign: u64 = if negative {
        0x8000_0000_0000_0000
    } else {
        0
    };
    let out: u64 = sign | (exponent << 52) | fraction;
    assert(out >= 0x8000_0000_0000_0000 <==> sign == 0x8000_0000_0000_0000) by (bit_vector)
        requires
            out == sign | (exponent << 52) | fraction,
            sign == 0x8000_0000_0000_0000 || sign == 0,
            exponent < 0x800,
            fraction < 0x10_0000_0000_0000,
    ;
    assert((out / 0x10_0000_0000_0000) % 0x800 == exponent && out % 0x10_0000_0000_0000
        == fraction) by (bit_vector)
        requires
            out == sign | (exponent << 52) | fraction,
            sign == 0x8000_0000_0000_0000 || sign == 0,
            exponent < 0x800,
            fraction < 0x10_0000_0000_0000,
    ;
    out
}

/// The double-precision pattern of a single-precision one.
pub fn widen(bits: u32) -> (out: u64)
    ensures
        widens_to(bits, out),
{
    let negative: bool = bits >= 0x8000_0000;
    let exponent: u64 = ((bits >> 23) & 0xff) as u64;
    let fraction: u64 = (bits & 0x7f_ffff) as u64;
    proof {
        assert((bits >> 23) & 0xff == (bits / 0x80_0000) % 0x100) by (bit_vector);
        assert(bits & 0x7f_ffff == bits % 0x80_0000) by (bit_vector);
        lemma2_to64();
    }
    if exponent == 0xff {
        let quiet: u64 = if 0 < fraction && fraction < 0x40_0000 {
            0x8_0000_0000_0000
        } else {
            0
        };
        return pack(negative, 0x7ff, quiet + fraction * 0x2000_0000);
    }
    if exponent != 0 {
        let out = pack(negative, exponent + 896, fraction * 0x2000_0000);
        proof {
            assert(binary64::scale(out) == scale(bits) - 29);
            assert((0x80_0000 + fraction) * 0x2000_0000 == 0x10_0000_0000_0000 + fraction
                * 0x2000_0000);
        }
        return out;
    }
    if fraction == 0 {
        let out = pack(negative, 0, 0);
        proof {
            assert(0 * pow2((scale(bits) - binary64::scale(out)) as nat) == 0);
        }
        return out;
    }
    let mut wide: u64 = fraction;
    let mut shifts: u64 = 0;
    while wide < 0x80_0000
        invariant
            0 < fraction < 0x80_0000,
            shifts <= 23,
            wide == fraction * pow2(shifts as nat),
            0 < wide < 0x100_0000,
        decreases 0x100_0000 - wide,
    {
        proof {
            lemma2_to64();
            lemma_pow2_adds(shifts as nat, 1);
            assert(fraction * (pow2(shifts as nat) * 2) == (fraction * pow2(shifts as nat)) * 2)
                by (nonlinear_arith);
            if shifts == 23 {
                assert(fraction * pow2(23) >= pow2(23)) by (nonlinear_arith)
                    requires
                        fraction >= 1,
                ;
            }
        }
        wide = wide * 2;
        shifts = shifts + 1;
    }
    let out = pack(negative, 897 - shifts, (wide - 0x80_0000) * 0x2000_0000);
    proof {
        lemma2_to64();
        assert(shifts >= 1);
        assert(binary64::scale(out) == -178 - shifts);
        assert(scale(bits) - binary64::scale(out) == 29 + shifts);
        lemma_pow2_adds(shifts as nat, 29);
        assert(binary64::significand(out) == wide * 0x2000_0000);
        assert(fraction * (pow2(shifts as nat) * pow2(29)) == (fraction * pow2(shifts as nat))
            * pow2(29)) by (nonlinear_arith);
    }
    out
}

} // verus!
