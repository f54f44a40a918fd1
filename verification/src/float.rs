//! Floating-point numbers carried by their IEEE-754 bits.
//!
//! Stored values and scores are floats, but the library only moves them
//! around: it never computes with them. It holds each one as its bit
//! pattern, and compares two of them as the IEEE-754 `==` does: a NaN
//! equals nothing, not even itself, and `+0` equals `-0`.

use vstd::arithmetic::mul::lemma_mul_strict_inequality;
use vstd::arithmetic::power2::{lemma_pow2_pos, lemma_pow2_unfold, lemma_pow2_strictly_increases, pow2};
use vstd::prelude::*;

verus! {

/// The bits that hold the exponent of a double.
pub open spec fn double_exponent_mask() -> u64 {
    0x7ff0_0000_0000_0000u64
}

/// The bits that hold the mantissa of a double.
pub open spec fn double_mantissa_mask() -> u64 {
    0x000f_ffff_ffff_ffffu64
}

/// Whether the bits of a double are a NaN: all exponent bits set and a
/// mantissa other than zero.
pub open spec fn double_is_nan(b: u64) -> bool {
    (b & double_exponent_mask()) == double_exponent_mask() && (b & double_mantissa_mask()) != 0
}

/// IEEE-754 equality of two doubles given by their bits: neither is a NaN,
/// and the bits are the same or both are a zero (of either sign).
pub open spec fn double_eq(a: u64, b: u64) -> bool {
    &&& !double_is_nan(a)
    &&& !double_is_nan(b)
    &&& (a == b || (a | b) & 0x7fff_ffff_ffff_ffffu64 == 0)
}

/// The bits that hold the exponent of a single.
pub open spec fn single_exponent_mask() -> u32 {
    0x7f80_0000u32
}

/// The bits that hold the mantissa of a single.
pub open spec fn single_mantissa_mask() -> u32 {
    0x007f_ffffu32
}

/// Whether the bits of a single are a NaN.
pub open spec fn single_is_nan(b: u32) -> bool {
    (b & single_exponent_mask()) == single_exponent_mask() && (b & single_mantissa_mask()) != 0
}

/// IEEE-754 equality of two singles given by their bits.
pub open spec fn single_eq(a: u32, b: u32) -> bool {
    &&& !single_is_nan(a)
    &&& !single_is_nan(b)
    &&& (a == b || (a | b) & 0x7fff_ffffu32 == 0)
}

/// A double, held as its bits.
#[derive(Debug, Clone, Copy)]
pub struct Double(pub u64);

/// A single, held as its bits.
#[derive(Debug, Clone, Copy)]
pub struct Single(pub u32);

/// IEEE-754 equality of two doubles given by their bits, computed.
pub fn double_equal(a: u64, b: u64) -> (r: bool)
    ensures
        r == double_eq(a, b),
{
    let a_nan = (a & 0x7ff0_0000_0000_0000u64) == 0x7ff0_0000_0000_0000u64
        && (a & 0x000f_ffff_ffff_ffffu64) != 0;
    let b_nan = (b & 0x7ff0_0000_0000_0000u64) == 0x7ff0_0000_0000_0000u64
        && (b & 0x000f_ffff_ffff_ffffu64) != 0;
    !a_nan && !b_nan && (a == b || (a | b) & 0x7fff_ffff_ffff_ffffu64 == 0)
}

/// IEEE-754 equality of two singles given by their bits, computed.
pub fn single_equal(a: u32, b: u32) -> (r: bool)
    ensures
        r == single_eq(a, b),
{
    let a_nan = (a & 0x7f80_0000u32) == 0x7f80_0000u32 && (a & 0x007f_ffffu32) != 0;
    let b_nan = (b & 0x7f80_0000u32) == 0x7f80_0000u32 && (b & 0x007f_ffffu32) != 0;
    !a_nan && !b_nan && (a == b || (a | b) & 0x7fff_ffffu32 == 0)
}

impl PartialEq for Double {
    fn eq(&self, other: &Self) -> (r: bool) {
        double_equal(self.0, other.0)
    }
}

impl vstd::std_specs::cmp::PartialEqSpecImpl for Double {
    open spec fn obeys_eq_spec() -> bool {
        true
    }

    open spec fn eq_spec(&self, other: &Self) -> bool {
        double_eq(self.0, other.0)
    }
}

impl PartialEq for Single {
    fn eq(&self, other: &Self) -> (r: bool) {
        single_equal(self.0, other.0)
    }
}

impl vstd::std_specs::cmp::PartialEqSpecImpl for Single {
    open spec fn obeys_eq_spec() -> bool {
        true
    }

    open spec fn eq_spec(&self, other: &Self) -> bool {
        single_eq(self.0, other.0)
    }
}


// ---------------------------------------------------------------------
// What a float is worth.
// ---------------------------------------------------------------------

/// The magnitude of a float with biased exponent `e` and a mantissa `m` of
/// `w` bits, counted in units of the smallest subnormal: a subnormal
/// (`e == 0`) is `m` units, a normal number is `(2^w + m) * 2^(e - 1)`
/// units. It is exact for every finite float; the exponent of the
/// infinities gives them a magnitude above every finite one.
pub open spec fn scaled_magnitude(e: nat, m: nat, w: nat) -> nat {
    if e == 0 {
        m
    } else {
        ((pow2(w) + m) * pow2((e - 1) as nat)) as nat
    }
}

/// The biased exponent of a double.
pub open spec fn double_exponent(b: u64) -> nat {
    ((b >> 52u64) & 0x7ffu64) as nat
}

/// The mantissa of a double.
pub open spec fn double_mantissa(b: u64) -> nat {
    (b & 0x000f_ffff_ffff_ffffu64) as nat
}

/// The value of a double (not a NaN), in units of `2^-1074`, the smallest
/// subnormal: the sign applied to the magnitude.
pub open spec fn double_value(b: u64) -> int {
    let mag = scaled_magnitude(double_exponent(b), double_mantissa(b), 52);
    if b & 0x8000_0000_0000_0000u64 != 0 {
        -mag
    } else {
        mag as int
    }
}

/// The biased exponent of a single.
pub open spec fn single_exponent(b: u32) -> nat {
    ((b >> 23u32) & 0xffu32) as nat
}

/// The mantissa of a single.
pub open spec fn single_mantissa(b: u32) -> nat {
    (b & 0x007f_ffffu32) as nat
}

/// The value of a single (not a NaN), in units of `2^-149`, the smallest
/// subnormal: the sign applied to the magnitude.
pub open spec fn single_value(b: u32) -> int {
    let mag = scaled_magnitude(single_exponent(b), single_mantissa(b), 23);
    if b & 0x8000_0000u32 != 0 {
        -mag
    } else {
        mag as int
    }
}

/// Exponent first, then mantissa.
pub open spec fn fields_lt(e1: nat, m1: nat, e2: nat, m2: nat) -> bool {
    e1 < e2 || (e1 == e2 && m1 < m2)
}

/// The magnitude grows with the exponent, then with the mantissa, and is
/// zero only for a zero exponent and mantissa.
pub proof fn lemma_magnitude_order(e1: nat, m1: nat, e2: nat, m2: nat, w: nat)
    requires
        m1 < pow2(w),
        m2 < pow2(w),
    ensures
        fields_lt(e1, m1, e2, m2) <==> scaled_magnitude(e1, m1, w) < scaled_magnitude(e2, m2, w),
        scaled_magnitude(e1, m1, w) == scaled_magnitude(e2, m2, w) <==> (e1 == e2 && m1 == m2),
        scaled_magnitude(e1, m1, w) == 0 <==> (e1 == 0 && m1 == 0),
{
    if fields_lt(e1, m1, e2, m2) {
        lemma_magnitude_increases(e1, m1, e2, m2, w);
    } else if fields_lt(e2, m2, e1, m1) {
        lemma_magnitude_increases(e2, m2, e1, m1, w);
    }
    if fields_lt(0, 0, e1, m1) {
        lemma_magnitude_increases(0, 0, e1, m1, w);
    }
}

proof fn lemma_magnitude_increases(e1: nat, m1: nat, e2: nat, m2: nat, w: nat)
    requires
        m1 < pow2(w),
        m2 < pow2(w),
        fields_lt(e1, m1, e2, m2),
    ensures
        scaled_magnitude(e1, m1, w) < scaled_magnitude(e2, m2, w),
{
    let p = pow2(w);
    lemma_pow2_pos(w);
    if e1 == e2 {
        if e1 > 0 {
            let q = pow2((e1 - 1) as nat);
            lemma_pow2_pos((e1 - 1) as nat);
            lemma_mul_strict_inequality((p + m1) as int, (p + m2) as int, q as int);
        }
    } else {
        // Everything of exponent `e1` lies below `p * 2^(e2 - 1)`, where
        // exponent `e2` starts.
        let q2 = pow2((e2 - 1) as nat);
        lemma_pow2_pos((e2 - 1) as nat);
        assert(p * q2 <= (p + m2) * q2) by (nonlinear_arith)
            requires
                q2 > 0,
                m2 >= 0,
        ;
        if e1 == 0 {
            assert(p <= p * q2) by (nonlinear_arith)
                requires
                    q2 >= 1,
                    p > 0,
            ;
        } else {
            let q1 = pow2((e1 - 1) as nat);
            lemma_pow2_pos((e1 - 1) as nat);
            if e1 < e2 - 1 {
                lemma_pow2_strictly_increases(e1, (e2 - 1) as nat);
            }
            lemma_pow2_unfold(e1);
            assert(pow2(e1) <= q2);
            assert((p + m1) * q1 < p * q2) by (nonlinear_arith)
                requires
                    m1 < p,
                    q1 > 0,
                    2 * q1 <= q2,
            ;
        }
    }
}

/// The fields of a double: sign, exponent and mantissa make up its bits,
/// and a double is a NaN when its exponent is all ones and its mantissa is
/// not zero.
proof fn lemma_double_fields(a: u64, b: u64)
    ensures
        double_mantissa(a) < pow2(52),
        a == b <==> ((a & 0x8000_0000_0000_0000u64) == (b & 0x8000_0000_0000_0000u64)
            && double_exponent(a) == double_exponent(b) && double_mantissa(a) == double_mantissa(b)),
        (a | b) & 0x7fff_ffff_ffff_ffffu64 == 0 <==> (double_exponent(a) == 0 && double_mantissa(a) == 0
            && double_exponent(b) == 0 && double_mantissa(b) == 0),
{
    vstd::arithmetic::power2::lemma2_to64();
    vstd::arithmetic::power2::lemma2_to64_rest();
    assert(a & 0x000f_ffff_ffff_ffffu64 < 0x10_0000_0000_0000u64) by (bit_vector);
    assert(a == b <==> ((a & 0x8000_0000_0000_0000u64) == (b & 0x8000_0000_0000_0000u64)
        && ((a >> 52u64) & 0x7ffu64) == ((b >> 52u64) & 0x7ffu64)
        && (a & 0x000f_ffff_ffff_ffffu64) == (b & 0x000f_ffff_ffff_ffffu64))) by (bit_vector);
    assert((a | b) & 0x7fff_ffff_ffff_ffffu64 == 0 <==> (((a >> 52u64) & 0x7ffu64) == 0
        && (a & 0x000f_ffff_ffff_ffffu64) == 0 && ((b >> 52u64) & 0x7ffu64) == 0
        && (b & 0x000f_ffff_ffff_ffffu64) == 0)) by (bit_vector);
}

/// Two doubles are equal, as `==` on floats has it, exactly when neither is
/// a NaN and they have the same value: distinct values are never equal,
/// and `+0` equals `-0`.
pub proof fn law_double_eq_is_equal_value(a: u64, b: u64)
    ensures
        double_is_nan(a) || double_is_nan(b) ==> !double_eq(a, b),
        !double_is_nan(a) && !double_is_nan(b) ==> (double_eq(a, b) <==> double_value(a) == double_value(b)),
{
    lemma_double_fields(a, b);
    lemma_double_fields(b, a);
    let ea = double_exponent(a);
    let ma = double_mantissa(a);
    let eb = double_exponent(b);
    let mb = double_mantissa(b);
    lemma_magnitude_order(ea, ma, eb, mb, 52);
    lemma_magnitude_order(ea, ma, 0, 0, 52);
    lemma_magnitude_order(eb, mb, 0, 0, 52);
    let mag_a = scaled_magnitude(ea, ma, 52);
    let mag_b = scaled_magnitude(eb, mb, 52);
    let neg_a = a & 0x8000_0000_0000_0000u64 != 0;
    let neg_b = b & 0x8000_0000_0000_0000u64 != 0;
    assert(double_value(a) == if neg_a { -mag_a } else { mag_a as int });
    assert(double_value(b) == if neg_b { -mag_b } else { mag_b as int });
    if !double_is_nan(a) && !double_is_nan(b) {
        if double_value(a) == double_value(b) {
            if mag_a == 0 {
                assert(mag_b == 0);
            } else {
                assert(neg_a == neg_b);
                assert(mag_a == mag_b);
                assert((a & 0x8000_0000_0000_0000u64) == 0 || (a & 0x8000_0000_0000_0000u64) == 0x8000_0000_0000_0000u64) by (bit_vector);
                assert((b & 0x8000_0000_0000_0000u64) == 0 || (b & 0x8000_0000_0000_0000u64) == 0x8000_0000_0000_0000u64) by (bit_vector);
            }
        }
    }
}

/// The fields of a single, as [`lemma_double_fields`] has them for doubles.
pub proof fn lemma_single_fields(a: u32, b: u32)
    ensures
        single_mantissa(a) < pow2(23),
        a == b <==> ((a & 0x8000_0000u32) == (b & 0x8000_0000u32)
            && single_exponent(a) == single_exponent(b) && single_mantissa(a) == single_mantissa(b)),
        (a | b) & 0x7fff_ffffu32 == 0 <==> (single_exponent(a) == 0 && single_mantissa(a) == 0
            && single_exponent(b) == 0 && single_mantissa(b) == 0),
        single_is_nan(a) <==> (single_exponent(a) == 0xff && single_mantissa(a) != 0),
        single_exponent(a) <= 0xff,
{
    vstd::arithmetic::power2::lemma2_to64();
    assert(a & 0x007f_ffffu32 < 0x80_0000u32) by (bit_vector);
    assert((a >> 23u32) & 0xffu32 <= 0xffu32) by (bit_vector);
    assert(a == b <==> ((a & 0x8000_0000u32) == (b & 0x8000_0000u32)
        && ((a >> 23u32) & 0xffu32) == ((b >> 23u32) & 0xffu32)
        && (a & 0x007f_ffffu32) == (b & 0x007f_ffffu32))) by (bit_vector);
    assert((a | b) & 0x7fff_ffffu32 == 0 <==> (((a >> 23u32) & 0xffu32) == 0
        && (a & 0x007f_ffffu32) == 0 && ((b >> 23u32) & 0xffu32) == 0
        && (b & 0x007f_ffffu32) == 0)) by (bit_vector);
    assert(((a & 0x7f80_0000u32) == 0x7f80_0000u32) <==> (((a >> 23u32) & 0xffu32) == 0xffu32))
        by (bit_vector);
}

/// Two singles are equal, as `==` on floats has it, exactly when neither
/// is a NaN and they have the same value.
pub proof fn law_single_eq_is_equal_value(a: u32, b: u32)
    ensures
        single_is_nan(a) || single_is_nan(b) ==> !single_eq(a, b),
        !single_is_nan(a) && !single_is_nan(b) ==> (single_eq(a, b) <==> single_value(a) == single_value(b)),
{
    lemma_single_fields(a, b);
    lemma_single_fields(b, a);
    let ea = single_exponent(a);
    let ma = single_mantissa(a);
    let eb = single_exponent(b);
    let mb = single_mantissa(b);
    lemma_magnitude_order(ea, ma, eb, mb, 23);
    lemma_magnitude_order(ea, ma, 0, 0, 23);
    lemma_magnitude_order(eb, mb, 0, 0, 23);
    let mag_a = scaled_magnitude(ea, ma, 23);
    let mag_b = scaled_magnitude(eb, mb, 23);
    let neg_a = a & 0x8000_0000u32 != 0;
    let neg_b = b & 0x8000_0000u32 != 0;
    assert(single_value(a) == if neg_a { -mag_a } else { mag_a as int });
    assert(single_value(b) == if neg_b { -mag_b } else { mag_b as int });
    if !single_is_nan(a) && !single_is_nan(b) {
        if single_value(a) == single_value(b) {
            if mag_a == 0 {
                assert(mag_b == 0);
            } else {
                assert(neg_a == neg_b);
                assert(mag_a == mag_b);
                assert((a & 0x8000_0000u32) == 0 || (a & 0x8000_0000u32) == 0x8000_0000u32) by (bit_vector);
                assert((b & 0x8000_0000u32) == 0 || (b & 0x8000_0000u32) == 0x8000_0000u32) by (bit_vector);
            }
        }
    }
}

/// A NaN equals nothing, itself included, and the two zeros are equal.
pub proof fn law_float_equality(a: u64, b: u64)
    ensures
        double_is_nan(a) ==> !double_eq(a, a),
        double_eq(0u64, 0x8000_0000_0000_0000u64),
        !double_is_nan(a) ==> double_eq(a, a),
        double_eq(a, b) == double_eq(b, a),
{
    assert(0u64 | 0x8000_0000_0000_0000u64 == 0x8000_0000_0000_0000u64) by (bit_vector);
    assert((0x8000_0000_0000_0000u64 & 0x7fff_ffff_ffff_ffffu64) == 0) by (bit_vector);
    assert(0u64 & 0x7ff0_0000_0000_0000u64 == 0) by (bit_vector);
    assert((0x8000_0000_0000_0000u64 & 0x7ff0_0000_0000_0000u64) == 0) by (bit_vector);
    assert(a | b == b | a) by (bit_vector);
}

} // verus!
