//! Floating-point formats as bit patterns.
//!
//! Weights are stored in formats that the machine does not compute in. Here a
//! number is its bits, and converting between formats is integer work; what the
//! bits are worth is stated in whole units of a small power of two.

use vstd::prelude::*;

verus! {

/// The leading zeros of a nonzero ten-bit mantissa held in 32 bits.
pub open spec fn lead(man: u32) -> u32 {
    if man >= 512 {
        22
    } else if man >= 256 {
        23
    } else if man >= 128 {
        24
    } else if man >= 64 {
        25
    } else if man >= 32 {
        26
    } else if man >= 16 {
        27
    } else if man >= 8 {
        28
    } else if man >= 4 {
        29
    } else if man >= 2 {
        30
    } else {
        31
    }
}

/// The bits of the single-precision number that a half-precision one stands for.
pub open spec fn half_to_single(b: u16) -> u32 {
    let x = b as u32;
    let sign = (x >> 15) << 31;
    let exp = (x >> 10) & 0x1f;
    let man = x & 0x3ff;
    if exp == 0 && man == 0 {
        sign
    } else if exp == 0 {
        // Subnormal: value is man * 2^-24, renormalised into a f32 exponent.
        sign | (((134 - lead(man)) as u32) << 23) | ((man << ((lead(man) - 8) as u32)) & 0x7f_ffff)
    } else if exp == 0x1f {
        sign | 0x7f80_0000 | (man << 13)
    } else {
        sign | (((exp + 112) as u32) << 23) | (man << 13)
    }
}

/// The bits of the half-precision number that a single-precision one rounds to.
/// What is too large becomes infinite, and so does what is not a number.
pub open spec fn single_to_half(x: u32) -> u16 {
    let sign = (x >> 16) & 0x8000;
    let e = (x >> 23) & 0xff;
    let man = x & 0x7f_ffff;
    if e >= 143 {
        (sign | 0x7c00) as u16
    } else if e < 102 {
        sign as u16
    } else if e <= 112 {
        let m = (man | 0x80_0000) >> ((113 - e) as u32);
        (sign | (((m + 0x1000) as u32) >> 13)) as u16
    } else {
        // Round to nearest even, letting mantissa overflow bump the exponent.
        let rounded = (man + 0x0fff + ((man >> 13) & 1)) as u32;
        let exp = (e - 112 + (rounded >> 23)) as u32;
        if exp >= 0x1f {
            (sign | 0x7c00) as u16
        } else {
            (sign | (exp << 10) | ((rounded & 0x7f_ffff) >> 13)) as u16
        }
    }
}

/// The bits of the brain-float that a single-precision number rounds to.
pub open spec fn single_to_brain(x: u32) -> u16 {
    ((((x as u64 + ((x >> 16) & 1) as u64 + 0x7fff) as u64) & 0xffff_ffff) >> 16) as u16
}

/// The magnitude of a finite half-precision number, in units of 2^-47.
pub open spec fn half_magnitude(b: u16) -> u64 {
    let exp = (b as u64 >> 10) & 0x1f;
    let man = b as u64 & 0x3ff;
    if exp == 0 {
        man << 23
    } else {
        (man | 0x400) << ((exp + 22) as u64)
    }
}

/// The magnitude of a single-precision number, in units of 2^-47, where it is a
/// whole number of them and not too large: zero, or an exponent from 103 to 142.
pub open spec fn single_magnitude(x: u32) -> u64 {
    let exp = (x as u64 >> 23) & 0xff;
    let man = x as u64 & 0x7f_ffff;
    if exp == 0 {
        0
    } else {
        (man | 0x80_0000) << ((exp - 103) as u64)
    }
}

/// Widening a finite half-precision number keeps its value.
pub proof fn law_widening_is_exact(b: u16)
    requires
        (b >> 10) & 0x1f != 0x1f,
    ensures
        half_to_single(b) >> 31 == b >> 15,
        single_magnitude(half_to_single(b)) == half_magnitude(b),
{
    assert((b >> 10) & 0x1f != 0x1f ==> half_to_single(b) >> 31 == b >> 15 && single_magnitude(half_to_single(b))
        == half_magnitude(b)) by (bit_vector);
}

/// Narrowing what was widened gives it back, infinities with it.
pub proof fn law_half_round_trip(b: u16)
    requires
        (b >> 10) & 0x1f != 0x1f || b & 0x3ff == 0,
    ensures
        single_to_half(half_to_single(b)) == b,
{
    assert((b >> 10) & 0x1f != 0x1f || b & 0x3ff == 0 ==> single_to_half(half_to_single(b)) == b) by (bit_vector);
}

/// Narrowing a widened brain-float gives it back.
pub proof fn law_brain_round_trip(b: u16)
    ensures
        single_to_brain((b as u32) << 16) == b,
{
    assert(single_to_brain((b as u32) << 16) == b) by (bit_vector);
}

/// The distance between two magnitudes.
pub open spec fn apart(a: u64, b: u64) -> u64 {
    if a >= b {
        (a - b) as u64
    } else {
        (b - a) as u64
    }
}

/// Narrowing picks a nearest half-precision number: no finite one of the same
/// sign is closer to what was narrowed.
pub proof fn law_narrowing_is_nearest(x: u32, b: u16)
    requires
        103 <= (x >> 23) & 0xff,
        (x >> 23) & 0xff <= 142,
        (single_to_half(x) >> 10) & 0x1f != 0x1f,
        (b >> 10) & 0x1f != 0x1f,
    ensures
        apart(half_magnitude(single_to_half(x)), single_magnitude(x)) <= apart(half_magnitude(b), single_magnitude(x)),
{
    assert(103 <= (x >> 23) & 0xff && (x >> 23) & 0xff <= 142 && (single_to_half(x) >> 10) & 0x1f != 0x1f && (b >> 10)
        & 0x1f != 0x1f ==> apart(half_magnitude(single_to_half(x)), single_magnitude(x)) <= apart(
        half_magnitude(b),
        single_magnitude(x),
    )) by (bit_vector);
}

/// Narrowing loses little: a number of half precision's ordinary range moves by no
/// more than its 2048th part.
pub proof fn law_narrowing_is_close(x: u32)
    requires
        113 <= (x >> 23) & 0xff,
        (x >> 23) & 0xff <= 142,
        (single_to_half(x) >> 10) & 0x1f != 0x1f,
    ensures
        2048 * apart(half_magnitude(single_to_half(x)), single_magnitude(x)) <= single_magnitude(x),
        half_magnitude(single_to_half(x)) > 0,
{
    assert(113 <= (x >> 23) & 0xff && (x >> 23) & 0xff <= 142 && (single_to_half(x) >> 10) & 0x1f != 0x1f ==> apart(
        half_magnitude(single_to_half(x)),
        single_magnitude(x),
    ) <= single_magnitude(x) / 2048 && half_magnitude(single_to_half(x)) > 0) by (bit_vector);
}

/// Widen a half-precision number, bits to bits.
pub fn f16_to_f32(b: u16) -> (r: u32)
    ensures
        r == half_to_single(b),
{
    let x: u32 = b as u32;
    let sign: u32 = (x >> 15) << 31;
    let exp: u32 = (x >> 10) & 0x1f;
    let man: u32 = x & 0x3ff;
    assert((x >> 10) & 0x1f <= 0x1f) by (bit_vector);
    if exp == 0 && man == 0 {
        sign
    } else if exp == 0 {
        let lz: u32 = leading(man);
        sign | ((134 - lz) << 23) | ((man << (lz - 8)) & 0x7f_ffff)
    } else if exp == 0x1f {
        sign | 0x7f80_0000 | (man << 13)
    } else {
        sign | ((exp + 112) << 23) | (man << 13)
    }
}

fn leading(man: u32) -> (r: u32)
    ensures
        r == lead(man),
        22 <= r <= 31,
{
    if man >= 512 {
        22
    } else if man >= 256 {
        23
    } else if man >= 128 {
        24
    } else if man >= 64 {
        25
    } else if man >= 32 {
        26
    } else if man >= 16 {
        27
    } else if man >= 8 {
        28
    } else if man >= 4 {
        29
    } else if man >= 2 {
        30
    } else {
        31
    }
}

/// Narrow a single-precision number to half precision, bits to bits.
pub fn f32_to_f16(x: u32) -> (r: u16)
    ensures
        r == single_to_half(x),
{
    let sign: u32 = (x >> 16) & 0x8000;
    let e: u32 = (x >> 23) & 0xff;
    let man: u32 = x & 0x7f_ffff;
    assert((x >> 23) & 0xff <= 0xff) by (bit_vector);
    assert(man <= 0x7f_ffff && (man >> 13) & 1 <= 1) by (bit_vector)
        requires
            man == x & 0x7f_ffff,
    ;
    if e >= 143 {
        #[verifier::truncate]
        ((sign | 0x7c00) as u16)
    } else if e < 102 {
        #[verifier::truncate]
        (sign as u16)
    } else if e <= 112 {
        let m: u32 = (man | 0x80_0000) >> (113 - e);
        assert(m <= 0xff_ffff) by (bit_vector)
            requires
                m == (man | 0x80_0000) >> ((113 - e) as u32),
                man <= 0x7f_ffff,
                102 <= e <= 112,
        ;
        #[verifier::truncate]
        ((sign | ((m + 0x1000) >> 13)) as u16)
    } else {
        let rounded: u32 = man + 0x0fff + ((man >> 13) & 1);
        assert(rounded >> 23 <= 1) by (bit_vector)
            requires
                rounded <= 0x80_0fff,
        ;
        let exp: u32 = e - 112 + (rounded >> 23);
        if exp >= 0x1f {
            #[verifier::truncate]
            ((sign | 0x7c00) as u16)
        } else {
            #[verifier::truncate]
            ((sign | (exp << 10) | ((rounded & 0x7f_ffff) >> 13)) as u16)
        }
    }
}

/// Narrow a single-precision number to a brain-float, bits to bits: round to
/// nearest even on the truncated mantissa.
pub fn f32_to_bf16(x: u32) -> (r: u16)
    ensures
        r == single_to_brain(x),
{
    assert((x >> 16) & 1 <= 1) by (bit_vector);
    let sum: u64 = x as u64 + ((x >> 16) & 1) as u64 + 0x7fff;
    #[verifier::truncate]
    (((sum & 0xffff_ffff) >> 16) as u16)
}

/// Where the highest bit of a nonzero 23-bit mantissa stands.
pub open spec fn top_bit(man: u64) -> u64 {
    if man >= 0x40_0000 {
        22
    } else if man >= 0x20_0000 {
        21
    } else if man >= 0x10_0000 {
        20
    } else if man >= 0x8_0000 {
        19
    } else if man >= 0x4_0000 {
        18
    } else if man >= 0x2_0000 {
        17
    } else if man >= 0x1_0000 {
        16
    } else if man >= 0x8000 {
        15
    } else if man >= 0x4000 {
        14
    } else if man >= 0x2000 {
        13
    } else if man >= 0x1000 {
        12
    } else if man >= 0x800 {
        11
    } else {
        top_bit_low(man)
    }
}

/// Where the highest bit of a nonzero eleven-bit mantissa stands.
pub open spec fn top_bit_low(man: u64) -> u64 {
    if man >= 0x400 {
        10
    } else if man >= 0x200 {
        9
    } else if man >= 0x100 {
        8
    } else if man >= 0x80 {
        7
    } else if man >= 0x40 {
        6
    } else if man >= 0x20 {
        5
    } else if man >= 0x10 {
        4
    } else if man >= 8 {
        3
    } else if man >= 4 {
        2
    } else if man >= 2 {
        1
    } else {
        0
    }
}

/// The bits of the double-precision number that a single-precision one stands
/// for. What is not a number stays so, as a quiet one.
pub open spec fn single_to_double(x: u32) -> u64 {
    let w = x as u64;
    let sign = (w >> 31) << 63;
    let exp = (w >> 23) & 0xff;
    let man = w & 0x7f_ffff;
    if exp == 0 && man == 0 {
        sign
    } else if exp == 0 {
        let t = top_bit(man);
        sign | (((t + 874) as u64) << 52) | ((man << ((52 - t) as u64)) & 0xf_ffff_ffff_ffff)
    } else if exp == 0xff && man == 0 {
        sign | 0x7ff0_0000_0000_0000
    } else if exp == 0xff {
        sign | 0x7ff8_0000_0000_0000 | (man << 29)
    } else {
        sign | (((exp + 896) as u64) << 52) | (man << 29)
    }
}

/// A double cut off to a whole number, and held to the range of 64 bits. What is
/// not a number counts as zero.
pub open spec fn double_to_int(bits: u64) -> int {
    let exp = (bits >> 52) & 0x7ff;
    let low = bits & 0xf_ffff_ffff_ffff;
    let man = low | 0x10_0000_0000_0000;
    let negative = bits >> 63 == 1;
    if exp < 1023 || (exp == 2047 && low != 0) {
        0
    } else if exp >= 1086 {
        if negative {
            i64::MIN as int
        } else {
            i64::MAX as int
        }
    } else {
        let size = if exp >= 1075 {
            man << ((exp - 1075) as u64)
        } else {
            man >> ((1075 - exp) as u64)
        };
        if negative {
            -(size as int)
        } else {
            size as int
        }
    }
}

/// Whether a double is more than one.
pub open spec fn above_one(bits: u64) -> bool {
    0x3ff0_0000_0000_0000 < bits <= 0x7ff0_0000_0000_0000
}

fn highest(man: u64) -> (r: u64)
    ensures
        r == top_bit(man),
        r <= 22,
{
    let floors: [u64; 22] = [
        0x40_0000,
        0x20_0000,
        0x10_0000,
        0x8_0000,
        0x4_0000,
        0x2_0000,
        0x1_0000,
        0x8000,
        0x4000,
        0x2000,
        0x1000,
        0x800,
        0x400,
        0x200,
        0x100,
        0x80,
        0x40,
        0x20,
        0x10,
        8,
        4,
        2,
    ];
    let mut i: usize = 0;
    while i < 22 && man < floors[i]
        invariant
            i <= 22,
            floors@ == seq![
                0x40_0000u64,
                0x20_0000,
                0x10_0000,
                0x8_0000,
                0x4_0000,
                0x2_0000,
                0x1_0000,
                0x8000,
                0x4000,
                0x2000,
                0x1000,
                0x800,
                0x400,
                0x200,
                0x100,
                0x80,
                0x40,
                0x20,
                0x10,
                8,
                4,
                2,
            ],
            forall|k: int| 0 <= k < i ==> man < floors@[k],
        decreases 22 - i,
    {
        i += 1;
    }
    assert(i > 0 ==> man < floors@[i - 1]);
    22 - i as u64
}

/// Widen a single-precision number to double precision, bits to bits.
pub fn f32_to_f64(x: u32) -> (r: u64)
    ensures
        r == single_to_double(x),
{
    let w: u64 = x as u64;
    let sign: u64 = (w >> 31) << 63;
    let exp: u64 = (w >> 23) & 0xff;
    let man: u64 = w & 0x7f_ffff;
    assert((w >> 23) & 0xff <= 0xff) by (bit_vector);
    if exp == 0 && man == 0 {
        sign
    } else if exp == 0 {
        let t: u64 = highest(man);
        sign | ((t + 874) << 52) | ((man << (52 - t)) & 0xf_ffff_ffff_ffff)
    } else if exp == 0xff && man == 0 {
        sign | 0x7ff0_0000_0000_0000
    } else if exp == 0xff {
        sign | 0x7ff8_0000_0000_0000 | (man << 29)
    } else {
        sign | ((exp + 896) << 52) | (man << 29)
    }
}

/// Cut a double off to a whole number, as a cast does.
pub fn f64_to_int(bits: u64) -> (r: i64)
    ensures
        r == double_to_int(bits),
{
    let exp: u64 = (bits >> 52) & 0x7ff;
    let low: u64 = bits & 0xf_ffff_ffff_ffff;
    let man: u64 = low | 0x10_0000_0000_0000;
    if exp < 1023 || (exp == 2047 && low != 0) {
        0
    } else if exp >= 1086 {
        if bits >> 63 == 1 {
            i64::MIN
        } else {
            i64::MAX
        }
    } else {
        let size: u64 = if exp >= 1075 {
            man << (exp - 1075)
        } else {
            man >> (1075 - exp)
        };
        assert(size <= 0x7fff_ffff_ffff_ffff) by (bit_vector)
            requires
                man == (bits & 0xf_ffff_ffff_ffff) | 0x10_0000_0000_0000,
                1023 <= exp < 1086,
                exp >= 1075 ==> size == man << ((exp - 1075) as u64),
                exp < 1075 ==> size == man >> ((1075 - exp) as u64),
        ;
        if bits >> 63 == 1 {
            -(size as i64)
        } else {
            size as i64
        }
    }
}

/// Widening to double precision keeps the value of every ordinary number: its
/// sign, its exponent and the bits of its mantissa.
pub proof fn law_double_holds_single(x: u32)
    requires
        (x >> 23) & 0xff != 0xff,
        (x >> 23) & 0xff != 0,
    ensures
        single_to_double(x) >> 63 == x >> 31,
        (single_to_double(x) >> 52) & 0x7ff == ((x >> 23) & 0xff) + 896,
        single_to_double(x) & 0xf_ffff_ffff_ffff == (x & 0x7f_ffff) * 0x2000_0000,
{
    assert((x >> 23) & 0xff != 0xff && (x >> 23) & 0xff != 0 ==> single_to_double(x) >> 63 == x >> 31 && (
    single_to_double(x) >> 52) & 0x7ff == ((x >> 23) & 0xff) + 896 && single_to_double(x) & 0xf_ffff_ffff_ffff == (x
        & 0x7f_ffff) * 0x2000_0000) by (bit_vector);
}

/// A number that is read as a floating-point one.
#[derive(Clone, Copy, PartialEq, Eq, Debug, Structural)]
pub enum Real {
    /// The bits of a double.
    Bits(u64),
    /// The double nearest to a whole number.
    Pos(u64),
    /// The double nearest to a negative whole number.
    Neg(i64),
}

/// The distance between neighbouring doubles around a whole number, or one where
/// they are closer.
pub open spec fn grain(n: u64) -> int {
    if n < 0x20_0000_0000_0000 {
        1
    } else if n < 0x40_0000_0000_0000 {
        2
    } else if n < 0x80_0000_0000_0000 {
        4
    } else if n < 0x100_0000_0000_0000 {
        8
    } else if n < 0x200_0000_0000_0000 {
        16
    } else if n < 0x400_0000_0000_0000 {
        32
    } else if n < 0x800_0000_0000_0000 {
        64
    } else if n < 0x1000_0000_0000_0000 {
        128
    } else if n < 0x2000_0000_0000_0000 {
        256
    } else if n < 0x4000_0000_0000_0000 {
        512
    } else if n < 0x8000_0000_0000_0000 {
        1024
    } else {
        2048
    }
}

/// The double nearest to a whole number, the even one of two that are as near.
pub open spec fn nearest(n: u64) -> int {
    let g = grain(n);
    let q = n as int / g;
    let r = n as int % g;
    if 2 * r > g || (2 * r == g && q % 2 == 1) {
        (q + 1) * g
    } else {
        q * g
    }
}

/// A double cut off to a whole number, and held to the range of a machine word.
pub open spec fn double_to_word(bits: u64) -> u64 {
    let exp = (bits >> 52) & 0x7ff;
    let low = bits & 0xf_ffff_ffff_ffff;
    let man = low | 0x10_0000_0000_0000;
    if bits >> 63 == 1 || exp < 1023 || (exp == 2047 && low != 0) {
        0
    } else if exp >= 1087 {
        u64::MAX
    } else if exp >= 1075 {
        man << ((exp - 1075) as u64)
    } else {
        man >> ((1075 - exp) as u64)
    }
}

impl Real {
    /// The number cut off to a whole one, and held to the range of 64 bits.
    pub open spec fn word(self) -> u64 {
        match self {
            Real::Bits(b) => double_to_word(b),
            Real::Pos(n) => if nearest(n) > u64::MAX {
                u64::MAX
            } else {
                nearest(n) as u64
            },
            Real::Neg(_) => 0,
        }
    }

    /// Whether the number is more than one.
    pub open spec fn exceeds_one(self) -> bool {
        match self {
            Real::Bits(b) => above_one(b),
            Real::Pos(n) => n > 1,
            Real::Neg(_) => false,
        }
    }

    /// Whether the number is more than one in single precision.
    pub open spec fn stretches(self) -> bool {
        match self {
            Real::Bits(b) => 0x3ff0_0000_1000_0000 < b <= 0x7ff0_0000_0000_0000,
            Real::Pos(n) => n > 1,
            Real::Neg(_) => false,
        }
    }

    /// The number cut off to a whole one, and held to the range of 64 bits.
    pub fn to_word(self) -> (r: u64)
        ensures
            r == self.word(),
    {
        match self {
            Real::Bits(bits) => {
                let exp: u64 = (bits >> 52) & 0x7ff;
                let low: u64 = bits & 0xf_ffff_ffff_ffff;
                let man: u64 = low | 0x10_0000_0000_0000;
                if bits >> 63 == 1 || exp < 1023 || (exp == 2047 && low != 0) {
                    0
                } else if exp >= 1087 {
                    u64::MAX
                } else if exp >= 1075 {
                    man << (exp - 1075)
                } else {
                    man >> (1075 - exp)
                }
            },
            Real::Pos(n) => {
                let g: u64 = spacing(n);
                let q: u64 = n / g;
                let r: u64 = n % g;
                proof {
                    assert(q * g + r == n) by (nonlinear_arith)
                        requires
                            q == n / g,
                            r == n % g,
                            g > 0,
                    ;
                }
                let low: u64 = n - r;
                assert(low == q * g);
                if 2 * r > g || (2 * r == g && q % 2 == 1) {
                    assert((q + 1) * g == q * g + g) by (nonlinear_arith);
                    if low > u64::MAX - g {
                        u64::MAX
                    } else {
                        low + g
                    }
                } else {
                    low
                }
            },
            Real::Neg(_) => 0,
        }
    }

    /// Whether the number is more than one.
    pub fn is_above_one(self) -> (r: bool)
        ensures
            r == self.exceeds_one(),
    {
        match self {
            Real::Bits(b) => 0x3ff0_0000_0000_0000 < b && b <= 0x7ff0_0000_0000_0000,
            Real::Pos(n) => n > 1,
            Real::Neg(_) => false,
        }
    }

    /// Whether the number is more than one in single precision.
    pub fn is_stretch(self) -> (r: bool)
        ensures
            r == self.stretches(),
    {
        match self {
            Real::Bits(b) => 0x3ff0_0000_1000_0000 < b && b <= 0x7ff0_0000_0000_0000,
            Real::Pos(n) => n > 1,
            Real::Neg(_) => false,
        }
    }
}

fn spacing(n: u64) -> (r: u64)
    ensures
        r == grain(n),
        0 < r <= 2048,
{
    if n < 0x20_0000_0000_0000 {
        1
    } else if n < 0x40_0000_0000_0000 {
        2
    } else if n < 0x80_0000_0000_0000 {
        4
    } else if n < 0x100_0000_0000_0000 {
        8
    } else if n < 0x200_0000_0000_0000 {
        16
    } else if n < 0x400_0000_0000_0000 {
        32
    } else if n < 0x800_0000_0000_0000 {
        64
    } else if n < 0x1000_0000_0000_0000 {
        128
    } else if n < 0x2000_0000_0000_0000 {
        256
    } else if n < 0x4000_0000_0000_0000 {
        512
    } else if n < 0x8000_0000_0000_0000 {
        1024
    } else {
        2048
    }
}

/// An integer that orders single-precision numbers, given by their bits: negative
/// ones by descending magnitude, then positive ones by ascending magnitude.
pub open spec fn order_of(bits: u32) -> u32 {
    if bits >= 0x8000_0000 {
        (0xffff_ffff - bits) as u32
    } else {
        (bits + 0x8000_0000) as u32
    }
}

/// The order of minus infinity.
pub open spec fn lowest_order() -> u32 {
    order_of(0xff80_0000)
}

/// An integer that orders single-precision numbers, given by their bits.
pub fn order_key(bits: u32) -> (r: u32)
    ensures
        r == order_of(bits),
{
    if bits >= 0x8000_0000 {
        0xffff_ffff - bits
    } else {
        bits + 0x8000_0000
    }
}

/// Whether the number `a` is greater than `b`, both given by their bits: never where
/// one is not a number, and not where both are zero, whatever their signs.
pub open spec fn greater(a: u32, b: u32) -> bool {
    &&& !is_nan(a)
    &&& !is_nan(b)
    &&& !(is_zero(a) && is_zero(b))
    &&& order_of(a) > order_of(b)
}

pub open spec fn is_nan(bits: u32) -> bool {
    0x7f80_0000 < bits < 0x8000_0000 || bits > 0xff80_0000
}

pub open spec fn is_zero(bits: u32) -> bool {
    bits == 0 || bits == 0x8000_0000
}

/// Whether the number `a` is greater than `b`, both given by their bits.
pub fn is_greater(a: u32, b: u32) -> (r: bool)
    ensures
        r == greater(a, b),
{
    let nan: bool = (0x7f80_0000 < a && a < 0x8000_0000) || a > 0xff80_0000 || (0x7f80_0000 < b && b < 0x8000_0000) || b
        > 0xff80_0000;
    let zero: bool = (a == 0 || a == 0x8000_0000) && (b == 0 || b == 0x8000_0000);
    !nan && !zero && order_key(a) > order_key(b)
}

/// Different bits have different orders, and numbers of one sign order by magnitude.
pub proof fn law_order_is_faithful(a: u32, b: u32)
    ensures
        order_of(a) == order_of(b) ==> a == b,
        a < b < 0x8000_0000 ==> order_of(a) < order_of(b),
        0x8000_0000 <= a < b ==> order_of(a) > order_of(b),
        a < 0x8000_0000 <= b ==> order_of(a) > order_of(b),
{
}

} // verus!
