//! What the conversions between floating-point widths do to the numbers themselves.

use vstd::prelude::*;
use crate::float::{
    double_to_int, double_to_word, grain, half_to_single, nearest, single_to_brain, single_to_half, Real,
};

verus! {

/// A brain-float is the nearest one to the number it was made from, and of two that are as near the
/// one whose last bit is zero: its bits are the upper half of the number's, rounded.
pub proof fn law_brains_are_nearest(x: u32)
    requires
        x < 0xffff_8000,
    ensures
        x - 65536 * single_to_brain(x) <= 0x8000,
        65536 * single_to_brain(x) - x <= 0x8000,
        x - 65536 * single_to_brain(x) == 0x8000 || 65536 * single_to_brain(x) - x == 0x8000 ==> single_to_brain(x) % 2 == 0,
{
    let b = single_to_brain(x);
    assert(x <= (b as u64) * 65536 + 0x8000 && (b as u64) * 65536 <= x + 0x8000 && (x == (b as u64) * 65536 + 0x8000 || (
    b as u64) * 65536 == x + 0x8000 ==> b % 2 == 0)) by (bit_vector)
        requires
            x < 0xffff_8000,
            b == single_to_brain(x),
    ;
}

/// Narrowing to half precision keeps the sign, makes infinite what is too large, and settles a tie
/// for the number whose last bit is zero.
pub proof fn law_narrowing_settles_ties(x: u32)
    ensures
        single_to_half(x) >> 15 == x >> 31,
        x & 0x7fff_ffff >= 0x477f_f000 ==> single_to_half(x) & 0x7fff == 0x7c00,
        x & 0x7fff_ffff < 0x477f_f000 ==> single_to_half(x) & 0x7c00 != 0x7c00,
        113 <= (x >> 23) & 0xff && (x >> 23) & 0xff <= 142 && x & 0x1fff == 0x1000 && x & 0x7fff_ffff < 0x477f_f000
            ==> single_to_half(x) & 1 == 0,
        x & 0x7fff_ffff < 0x3300_0000 ==> single_to_half(x) & 0x7fff == 0,
{
    assert(single_to_half(x) >> 15 == x >> 31 && (x & 0x7fff_ffff >= 0x477f_f000 ==> single_to_half(x) & 0x7fff == 0x7c00)
        && (x & 0x7fff_ffff < 0x477f_f000 ==> single_to_half(x) & 0x7c00 != 0x7c00) && (113 <= (x >> 23) & 0xff && (x >> 23)
        & 0xff <= 142 && x & 0x1fff == 0x1000 && x & 0x7fff_ffff < 0x477f_f000 ==> single_to_half(x) & 1 == 0) && (x
        & 0x7fff_ffff < 0x3300_0000 ==> single_to_half(x) & 0x7fff == 0)) by (bit_vector);
}

/// Infinities of half precision are infinities of single precision, and what is no number stays
/// none.
pub proof fn law_infinities_are_widened(b: u16)
    ensures
        half_to_single(0x7c00) == 0x7f80_0000,
        half_to_single(0xfc00) == 0xff80_0000,
        b & 0x7fff > 0x7c00 ==> half_to_single(b) & 0x7fff_ffff > 0x7f80_0000,
{
    assert(half_to_single(0x7c00) == 0x7f80_0000 && half_to_single(0xfc00) == 0xff80_0000 && (b & 0x7fff > 0x7c00
        ==> half_to_single(b) & 0x7fff_ffff > 0x7f80_0000)) by (bit_vector);
}

/// A double is cut off to the whole number below it: the mantissa lies between that number and the
/// next, in the place that its exponent gives it. What is below one gives zero, and so does what is
/// negative or no number.
pub proof fn law_doubles_are_cut_off(bits: u64, k: u64, man: u64)
    requires
        man == (bits & 0xf_ffff_ffff_ffff) | 0x10_0000_0000_0000,
        k <= 52,
        bits >> 52 == 1075 - k,
    ensures
        double_to_word(bits) << k <= man,
        man - (double_to_word(bits) << k) < 1u64 << k,
        double_to_word(bits) < 0x20_0000_0000_0000,
{
    let w = double_to_word(bits);
    assert(w << k <= man && man - (w << k) < 1u64 << k && w < 0x20_0000_0000_0000) by (bit_vector)
        requires
            man == (bits & 0xf_ffff_ffff_ffff) | 0x10_0000_0000_0000,
            k <= 52,
            bits >> 52 == 1075 - k,
            w == double_to_word(bits),
    ;
}

/// Doubles below one and negative ones are cut off to zero, and too large ones to the largest word.
pub proof fn law_doubles_are_held(bits: u64)
    ensures
        bits < 0x3ff0_0000_0000_0000 ==> double_to_word(bits) == 0,
        bits >= 0x8000_0000_0000_0000 ==> double_to_word(bits) == 0,
        0x43f0_0000_0000_0000 <= bits <= 0x7ff0_0000_0000_0000 ==> double_to_word(bits) == 0xffff_ffff_ffff_ffff,
        0x7ff0_0000_0000_0000 < bits < 0x8000_0000_0000_0000 ==> double_to_word(bits) == 0,
{
    assert((bits < 0x3ff0_0000_0000_0000 ==> double_to_word(bits) == 0) && (bits >= 0x8000_0000_0000_0000 ==> double_to_word(
        bits,
    ) == 0) && (0x43f0_0000_0000_0000 <= bits && bits <= 0x7ff0_0000_0000_0000 ==> double_to_word(bits)
        == 0xffff_ffff_ffff_ffff) && (0x7ff0_0000_0000_0000 < bits && bits < 0x8000_0000_0000_0000 ==> double_to_word(bits)
        == 0)) by (bit_vector);
}

/// Whole numbers up to 2^53 are their own nearest doubles; beyond, the nearest is no farther than
/// half the distance between neighbours.
pub proof fn law_whole_numbers_are_nearest(n: u64, m: i64)
    ensures
        n <= 0x20_0000_0000_0000 ==> nearest(n) == n && Real::Pos(n).word() == n,
        -grain(n) <= 2 * (n - nearest(n)) <= grain(n),
        nearest(n) % grain(n) == 0,
        Real::Neg(m).word() == 0,
{
    let g = grain(n);
    let q = n as int / g;
    let r = n as int % g;
    assert(n == g * q + r && 0 <= r < g) by (nonlinear_arith)
        requires
            g > 0,
            q == n as int / g,
            r == n as int % g,
    ;
    assert(q * g == g * q && (q + 1) * g == g * q + g) by (nonlinear_arith);
    assert((q * g) % g == 0 && ((q + 1) * g) % g == 0) by (nonlinear_arith)
        requires
            g > 0,
    ;
}

/// What is above one: of doubles those whose bits are above one's, up to infinity; of whole numbers
/// those from two on.
pub proof fn law_above_one(bits: u64, n: u64, m: i64)
    ensures
        Real::Bits(bits).exceeds_one() <==> 0x3ff0_0000_0000_0000 < bits <= 0x7ff0_0000_0000_0000,
        Real::Pos(n).exceeds_one() <==> n >= 2,
        !Real::Neg(m).exceeds_one(),
        Real::Pos(n).stretches() <==> n >= 2,
        Real::Bits(bits).stretches() ==> Real::Bits(bits).exceeds_one(),
        bits >= 0x3ff0_0000_2000_0000 && bits <= 0x7ff0_0000_0000_0000 ==> Real::Bits(bits).stretches(),
        bits <= 0x3ff0_0000_0000_0000 ==> !Real::Bits(bits).stretches(),
{
}

/// A double as a signed whole number has its sign, and the size that it is cut off to.
pub proof fn law_signs_are_kept(bits: u64)
    requires
        bits < 0x43e0_0000_0000_0000,
    ensures
        double_to_int(bits) == double_to_word(bits),
        double_to_int((bits | 0x8000_0000_0000_0000) as u64) == -double_to_int(bits),
{
    let neg = bits | 0x8000_0000_0000_0000;
    assert(neg >> 63 == 1 && bits >> 63 == 0 && (neg >> 52) & 0x7ff == (bits >> 52) & 0x7ff && neg & 0xf_ffff_ffff_ffff == bits
        & 0xf_ffff_ffff_ffff && (bits >> 52) & 0x7ff < 1086) by (bit_vector)
        requires
            bits < 0x43e0_0000_0000_0000,
            neg == bits | 0x8000_0000_0000_0000,
    ;
}

} // verus!
