//! What the bytes of each format stand for: a block that is laid out from chosen scales and
//! levels reads back as those scales and levels, value by value.

use vstd::prelude::*;
use crate::float::half_to_single;
use crate::quant::{
    distance, kept_level, le16, levelled, nibble, packed_floor, packed_scale, plane_pair, signed_byte, term_of, term_q4k, Dt,
    Term,
};

verus! {

/// Block `blk` of a row, where a block takes `width` bytes.
pub open spec fn block_in(s: Seq<u8>, blk: int, width: int, block: Seq<u8>) -> bool {
    0 <= blk && blk * width + width <= s.len() && block == s.subrange(blk * width, blk * width + width)
}

/// The first two bytes from `at` on are those of `h`, low byte first.
pub open spec fn begins_with(block: Seq<u8>, at: int, h: u16) -> bool {
    block[at] == h % 256 && block[at + 1] == h / 256
}

/// Byte `k` of a block, where the row has it.
proof fn lemma_byte(s: Seq<u8>, blk: int, width: int, block: Seq<u8>, k: int)
    requires
        block_in(s, blk, width, block),
        0 <= k < width,
    ensures
        s[blk * width + k] == block[k],
{
    assert(0 <= blk * width) by (nonlinear_arith)
        requires
            0 <= blk,
            0 < width,
    ;
}

/// A super-block's index and a value's index in it.
proof fn lemma_super(blk: int, j: int)
    requires
        0 <= j < 256,
    ensures
        (256 * blk + j) / 256 == blk,
        (256 * blk + j) % 256 == j,
{
}

/// A value of a `Q4_K` super-block by its group of 64, its half of that, and its place there.
proof fn lemma_q4k_index(j: int, h: int, g: int, l: int)
    requires
        0 <= j < 256,
        h == j / 64,
        g == j % 64 / 32,
        l == j % 32,
    ensures
        j == 64 * h + 32 * g + l,
        0 <= h < 4,
        0 <= g < 2,
        0 <= l < 32,
        (g == 0) == (j % 64 < 32),
        (16 + 32 * h + l - 16) / 32 == h,
        (16 + 32 * h + l - 16) % 32 == l,
        0 <= j / 32 < 8,
{
}

proof fn lemma_two_bytes(x: u16)
    ensures
        (x % 256) + 256 * (x / 256) == x,
{
}

proof fn lemma_nibbles(a: int, b: int)
    requires
        0 <= a < 16,
        0 <= b < 16,
    ensures
        (a + 16 * b) % 16 == a,
        (a + 16 * b) / 16 == b,
{
}

/// Six bits of one number below the two high bits of another.
proof fn lemma_parts(a: int, b: int)
    requires
        0 <= a < 64,
        0 <= b < 64,
    ensures
        (a + 64 * (b / 16)) % 64 == a,
        (a + 64 * (b / 16)) / 64 == b / 16,
        b == b % 16 + 16 * (b / 16),
{
}

/// Four numbers of two bits in a byte.
proof fn lemma_pairs(a: int, b: int, c: int, d: int)
    requires
        0 <= a < 4,
        0 <= b < 4,
        0 <= c < 4,
        0 <= d < 4,
    ensures
        (a + 4 * b + 16 * c + 64 * d) / 1 % 4 == a,
        (a + 4 * b + 16 * c + 64 * d) / 4 % 4 == b,
        (a + 4 * b + 16 * c + 64 * d) / 16 % 4 == c,
        (a + 4 * b + 16 * c + 64 * d) / 64 % 4 == d,
{
    let x = a + 4 * b + 16 * c + 64 * d;
    assert(x / 4 == b + 4 * c + 16 * d);
    assert(x / 16 == c + 4 * d);
    assert(x / 64 == d);
}

/// Any 256 levels below 16, under eight scales and eight minimums below 64, read back from
/// the `Q4_K` super-block that holds them. Byte `16 + 32 * h + l` holds level `64 * h + l`
/// below level `64 * h + 32 + l`; the twelve bytes before hold the scales and minimums, the
/// last four of each in two parts; two half-precision numbers come first.
pub proof fn law_q4k_reads_back(
    s: Seq<u8>,
    blk: int,
    block: Seq<u8>,
    d: u16,
    m: u16,
    scale: Seq<int>,
    floor: Seq<int>,
    level: Seq<int>,
    j: int,
)
    requires
        block_in(s, blk, 144, block),
        begins_with(block, 0, d),
        begins_with(block, 2, m),
        forall|k: int| 0 <= k < 8 ==> 0 <= #[trigger] scale[k] < 64,
        forall|k: int| 0 <= k < 8 ==> 0 <= #[trigger] floor[k] < 64,
        forall|k: int| 0 <= k < 256 ==> 0 <= #[trigger] level[k] < 16,
        forall|k: int| 4 <= k < 8 ==> #[trigger] block[k] == scale[k - 4] + 64 * (scale[k] / 16),
        forall|k: int| 8 <= k < 12 ==> #[trigger] block[k] == floor[k - 8] + 64 * (floor[k - 4] / 16),
        forall|k: int| 12 <= k < 16 ==> #[trigger] block[k] == scale[k - 8] % 16 + 16 * (floor[k - 8] % 16),
        forall|k: int|
            16 <= k < 144 ==> #[trigger] block[k] == level[(k - 16) / 32 * 64 + (k - 16) % 32] + 16 * level[(k - 16) / 32 * 64
                + (k - 16) % 32 + 32],
        0 <= j < 256,
    ensures
        term_of(Dt::Q4K, s, 256 * blk + j) == Term::Floored(
            half_to_single(d),
            scale[j / 32] as i32,
            level[j] as i32,
            half_to_single(m),
            floor[j / 32] as i32,
        ),
{
    let at = blk * 144;
    lemma_super(blk, j);
    let h = j / 64;
    let g = j % 64 / 32;
    let l = j % 32;
    lemma_q4k_index(j, h, g, l);
    lemma_byte(s, blk, 144, block, 0);
    lemma_byte(s, blk, 144, block, 1);
    lemma_byte(s, blk, 144, block, 2);
    lemma_byte(s, blk, 144, block, 3);
    let k = j / 32;
    lemma_byte(s, blk, 144, block, 8 + k);
    lemma_byte(s, blk, 144, block, 4 + k);
    if k >= 4 {
        lemma_byte(s, blk, 144, block, k);
    }
    let q = 16 + 32 * h + l;
    lemma_byte(s, blk, 144, block, q);
    let level_low = level[64 * h + l];
    let level_high = level[64 * h + l + 32];
    assert(block[q] == level_low + 16 * level_high);
    assert(level[j] == (if g == 0 {
        level_low
    } else {
        level_high
    }));
    assert(le16(s, at) == d && le16(s, at + 2) == m) by {
        lemma_two_bytes(d);
        lemma_two_bytes(m);
    }
    assert(packed_scale(s, at + 4, k) == scale[k] && packed_floor(s, at + 4, k) == floor[k]) by {
        if k < 4 {
            assert(block[4 + k] == scale[k] + 64 * (scale[k + 4] / 16));
            assert(block[8 + k] == floor[k] + 64 * (floor[k + 4] / 16));
            lemma_parts(scale[k], scale[k + 4]);
            lemma_parts(floor[k], floor[k + 4]);
        } else {
            assert(block[k] == scale[k - 4] + 64 * (scale[k] / 16));
            assert(block[4 + k] == floor[k - 4] + 64 * (floor[k] / 16));
            assert(block[8 + k] == scale[k] % 16 + 16 * (floor[k] % 16));
            lemma_parts(scale[k - 4], scale[k]);
            lemma_parts(floor[k - 4], floor[k]);
            lemma_nibbles(scale[k] % 16, floor[k] % 16);
        }
    }
    lemma_nibbles(level_low, level_high);
    assert(at + 16 + j / 64 * 32 + j % 32 == at + q);
}

/// Where the two levels that share byte `32 * h + l` stand.
proof fn lemma_q4k_place(h: int, l: int)
    requires
        0 <= h < 4,
        0 <= l < 32,
    ensures
        (64 * h + l) / 64 == h,
        (64 * h + l) % 32 == l,
        (64 * h + l) % 64 == l,
        (64 * h + 32 + l) / 64 == h,
        (64 * h + 32 + l) % 32 == l,
        (64 * h + 32 + l) % 64 == 32 + l,
{
}

/// No nibble of a `Q4_K` super-block goes unread: two rows whose super-block `blk` differs in
/// a byte of levels differ in what they are worth.
pub proof fn law_q4k_reads_every_level(s: Seq<u8>, t: Seq<u8>, blk: int, k: int)
    requires
        0 <= blk,
        0 <= k < 128,
        s[blk * 144 + 16 + k] != t[blk * 144 + 16 + k],
    ensures
        exists|j: int| 0 <= j < 256 && #[trigger] term_of(Dt::Q4K, s, 256 * blk + j) != term_of(Dt::Q4K, t, 256 * blk + j),
{
    let h = k / 32;
    let l = k % 32;
    let low = 64 * h + l;
    let high = 64 * h + 32 + l;
    assert(k == 32 * h + l);
    lemma_super(blk, low);
    lemma_super(blk, high);
    lemma_q4k_place(h, l);
    let at = blk * 144;
    let a = s[at + 16 + k] as int;
    let b = t[at + 16 + k] as int;
    assert(term_q4k(s, at, low)->Floored_2 == a % 16 && term_q4k(t, at, low)->Floored_2 == b % 16);
    assert(term_q4k(s, at, high)->Floored_2 == a / 16 && term_q4k(t, at, high)->Floored_2 == b / 16);
    assert(a == a % 16 + 16 * (a / 16) && b == b % 16 + 16 * (b / 16));
    if a % 16 != b % 16 {
        assert(term_of(Dt::Q4K, s, 256 * blk + low) != term_of(Dt::Q4K, t, 256 * blk + low));
    } else {
        assert(term_of(Dt::Q4K, s, 256 * blk + high) != term_of(Dt::Q4K, t, 256 * blk + high));
    }
}

/// A value of a `Q6_K` super-block by its half, its quarter of that, and its place there.
proof fn lemma_q6k_index(j: int, n: int, group: int, l: int)
    requires
        0 <= j < 256,
        n == j / 128,
        group == j % 128 / 32,
        l == j % 32,
    ensures
        j == 128 * n + 32 * group + l,
        0 <= n < 2,
        0 <= group < 4,
        0 <= l < 32,
        192 + n * 8 + l / 16 + 2 * group - 192 == j / 16,
        192 <= 192 + n * 8 + l / 16 + 2 * group < 208,
        (n * 64 + group % 2 * 32 + l) / 64 == n,
        (n * 64 + group % 2 * 32 + l) % 64 == group % 2 * 32 + l,
        0 <= n * 64 + group % 2 * 32 + l < 128,
        (128 + n * 32 + l - 128) / 32 == n,
        (128 + n * 32 + l) % 32 == l,
{
}

/// Any 256 levels from -32 to 31, under sixteen signed scales, read back from the `Q6_K`
/// super-block that holds them. Of each half of 128 levels, raised by 32, the low nibbles
/// fill 64 bytes and the two high bits 32 more; a scale serves sixteen levels; the
/// half-precision number comes last.
pub proof fn law_q6k_reads_back(
    s: Seq<u8>,
    blk: int,
    block: Seq<u8>,
    d: u16,
    scale: Seq<int>,
    level: Seq<int>,
    j: int,
)
    requires
        block_in(s, blk, 210, block),
        begins_with(block, 208, d),
        forall|k: int| 0 <= k < 16 ==> -128 <= #[trigger] scale[k] < 128,
        forall|k: int| 0 <= k < 256 ==> -32 <= #[trigger] level[k] < 32,
        forall|k: int|
            0 <= k < 128 ==> #[trigger] block[k] == (level[k / 64 * 128 + k % 64] + 32) % 16 + 16 * ((level[k / 64 * 128
                + k % 64 + 64] + 32) % 16),
        forall|k: int|
            128 <= k < 192 ==> #[trigger] block[k] == (level[(k - 128) / 32 * 128 + k % 32] + 32) / 16 + 4 * ((level[(k - 128)
                / 32 * 128 + k % 32 + 32] + 32) / 16) + 16 * ((level[(k - 128) / 32 * 128 + k % 32 + 64] + 32) / 16) + 64 * ((
            level[(k - 128) / 32 * 128 + k % 32 + 96] + 32) / 16),
        forall|k: int|
            192 <= k < 208 ==> #[trigger] block[k] == (if scale[k - 192] < 0 {
                scale[k - 192] + 256
            } else {
                scale[k - 192]
            }),
        0 <= j < 256,
    ensures
        term_of(Dt::Q6K, s, 256 * blk + j) == Term::Parted(half_to_single(d), scale[j / 16] as i32, level[j] as i32),
{
    let at = blk * 210;
    lemma_super(blk, j);
    let n = j / 128;
    let group = j % 128 / 32;
    let l = j % 32;
    lemma_q6k_index(j, n, group, l);
    lemma_byte(s, blk, 210, block, 208);
    lemma_byte(s, blk, 210, block, 209);
    assert(le16(s, at + 208) == d) by {
        lemma_two_bytes(d);
    }
    let p = 192 + n * 8 + l / 16 + 2 * group;
    lemma_byte(s, blk, 210, block, p);
    assert(signed_byte(block[p]) == scale[j / 16]);
    let q = n * 64 + group % 2 * 32 + l;
    lemma_byte(s, blk, 210, block, q);
    let low = level[128 * n + q % 64] + 32;
    let high = level[128 * n + q % 64 + 64] + 32;
    assert(q / 64 * 128 + q % 64 == 128 * n + q % 64);
    assert(block[q] == low % 16 + 16 * (high % 16));
    lemma_nibbles(low % 16, high % 16);
    let h = 128 + n * 32 + l;
    lemma_byte(s, blk, 210, block, h);
    let a = level[128 * n + l] + 32;
    let b = level[128 * n + l + 32] + 32;
    let c = level[128 * n + l + 64] + 32;
    let e = level[128 * n + l + 96] + 32;
    assert((h - 128) / 32 * 128 + h % 32 == 128 * n + l);
    assert(block[h] == a / 16 + 4 * (b / 16) + 16 * (c / 16) + 64 * (e / 16));
    lemma_pairs(a / 16, b / 16, c / 16, e / 16);
    let own = level[j] + 32;
    assert(own == own % 16 + 16 * (own / 16));
    assert(own == (if group == 0 {
        a
    } else if group == 1 {
        b
    } else if group == 2 {
        c
    } else {
        e
    }));
    assert(own == (if group < 2 {
        low
    } else {
        high
    }));
}

/// Any 32 signed levels read back from the `Q8` block that holds them: the half-precision
/// scale, then a byte for each level.
pub proof fn law_q8_reads_back(s: Seq<u8>, blk: int, block: Seq<u8>, d: u16, level: Seq<int>, j: int)
    requires
        block_in(s, blk, 34, block),
        begins_with(block, 0, d),
        forall|k: int| 0 <= k < 32 ==> -128 <= #[trigger] level[k] < 128,
        forall|k: int|
            2 <= k < 34 ==> #[trigger] block[k] == (if level[k - 2] < 0 {
                level[k - 2] + 256
            } else {
                level[k - 2]
            }),
        0 <= j < 32,
    ensures
        term_of(Dt::Q8, s, 32 * blk + j) == Term::Scaled(half_to_single(d), level[j] as i32),
{
    let at = blk * 34;
    assert((32 * blk + j) / 32 == blk && (32 * blk + j) % 32 == j);
    lemma_byte(s, blk, 34, block, 0);
    lemma_byte(s, blk, 34, block, 1);
    lemma_byte(s, blk, 34, block, 2 + j);
}

/// Any 32 levels from -8 to 7 read back from the `Q4` block that holds them: the scale, then
/// sixteen bytes, level `l` in the low half of byte `l` and level `l + 16` in the high half,
/// each raised by 8.
pub proof fn law_q4_reads_back(s: Seq<u8>, blk: int, block: Seq<u8>, d: u16, level: Seq<int>, j: int)
    requires
        block_in(s, blk, 18, block),
        begins_with(block, 0, d),
        forall|k: int| 0 <= k < 32 ==> -8 <= #[trigger] level[k] < 8,
        forall|k: int| 2 <= k < 18 ==> #[trigger] block[k] == level[k - 2] + 8 + 16 * (level[k + 14] + 8),
        0 <= j < 32,
    ensures
        term_of(Dt::Q4, s, 32 * blk + j) == Term::Scaled(half_to_single(d), level[j] as i32),
{
    let at = blk * 18;
    assert((32 * blk + j) / 32 == blk && (32 * blk + j) % 32 == j);
    lemma_byte(s, blk, 18, block, 0);
    lemma_byte(s, blk, 18, block, 1);
    let k = 2 + j % 16;
    lemma_byte(s, blk, 18, block, k);
    assert(block[k] == level[k - 2] + 8 + 16 * (level[k + 14] + 8));
    assert(0 <= level[k - 2] + 8 < 16 && 0 <= level[k + 14] + 8 < 16);
}

/// The bit of weight `2^k` in a byte.
pub open spec fn bit_of(b: u8, k: int) -> int {
    if k == 0 {
        b as int % 2
    } else if k == 1 {
        b as int / 2 % 2
    } else if k == 2 {
        b as int / 4 % 2
    } else if k == 3 {
        b as int / 8 % 2
    } else if k == 4 {
        b as int / 16 % 2
    } else if k == 5 {
        b as int / 32 % 2
    } else if k == 6 {
        b as int / 64 % 2
    } else {
        b as int / 128
    }
}

/// Any 32 levels from -16 to 15 read back from the `Q5` block that holds them: the scale, four
/// bytes with the fifth bit of each level, the first level's lowest, then the low nibbles as
/// in `Q4`, each level raised by 16.
pub proof fn law_q5_reads_back(s: Seq<u8>, blk: int, block: Seq<u8>, d: u16, level: Seq<int>, j: int)
    requires
        block_in(s, blk, 22, block),
        begins_with(block, 0, d),
        forall|k: int| 0 <= k < 32 ==> -16 <= #[trigger] level[k] < 16,
        forall|k: int| 0 <= k < 32 ==> bit_of(block[2 + k / 8], k % 8) == (#[trigger] level[k] + 16) / 16,
        forall|k: int|
            6 <= k < 22 ==> #[trigger] block[k] == (level[k - 6] + 16) % 16 + 16 * ((level[k + 10] + 16) % 16),
        0 <= j < 32,
    ensures
        term_of(Dt::Q5, s, 32 * blk + j) == Term::Scaled(half_to_single(d), level[j] as i32),
{
    let at = blk * 22;
    assert((32 * blk + j) / 32 == blk && (32 * blk + j) % 32 == j);
    lemma_byte(s, blk, 22, block, 0);
    lemma_byte(s, blk, 22, block, 1);
    let k = 6 + j % 16;
    lemma_byte(s, blk, 22, block, k);
    lemma_byte(s, blk, 22, block, 2 + j / 8);
    let lo = (level[k - 6] + 16) % 16;
    let hi = (level[k + 10] + 16) % 16;
    assert(block[k] == lo + 16 * hi);
    assert(block[k] as int % 16 == lo && block[k] as int / 16 == hi);
    assert(bit_of(block[2 + j / 8], j % 8) == (level[j] + 16) / 16);
}

/// Any 32 levels from -32 to 31 read back from the `Q6` block that holds them: the scale, the
/// low nibbles as in `Q4`, then eight bytes with the two high bits of each level, the first of
/// four levels lowest, each level raised by 32.
pub proof fn law_q6_reads_back(s: Seq<u8>, blk: int, block: Seq<u8>, d: u16, level: Seq<int>, j: int)
    requires
        block_in(s, blk, 26, block),
        begins_with(block, 0, d),
        forall|k: int| 0 <= k < 32 ==> -32 <= #[trigger] level[k] < 32,
        forall|k: int|
            2 <= k < 18 ==> #[trigger] block[k] == (level[k - 2] + 32) % 16 + 16 * ((level[k + 14] + 32) % 16),
        forall|k: int|
            18 <= k < 26 ==> #[trigger] block[k] == (level[4 * (k - 18)] + 32) / 16 + 4 * ((level[4 * (k - 18) + 1] + 32)
                / 16) + 16 * ((level[4 * (k - 18) + 2] + 32) / 16) + 64 * ((level[4 * (k - 18) + 3] + 32) / 16),
        0 <= j < 32,
    ensures
        term_of(Dt::Q6, s, 32 * blk + j) == Term::Scaled(half_to_single(d), level[j] as i32),
{
    let at = blk * 26;
    assert((32 * blk + j) / 32 == blk && (32 * blk + j) % 32 == j);
    lemma_byte(s, blk, 26, block, 0);
    lemma_byte(s, blk, 26, block, 1);
    let k = 2 + j % 16;
    lemma_byte(s, blk, 26, block, k);
    let lo = (level[k - 2] + 32) % 16;
    let hi = (level[k + 14] + 32) % 16;
    assert(block[k] == lo + 16 * hi);
    lemma_nibbles(lo, hi);
    let h = 18 + j / 4;
    lemma_byte(s, blk, 26, block, h);
    let first = 4 * (j / 4);
    let a = level[first] + 32;
    let b = level[first + 1] + 32;
    let c = level[first + 2] + 32;
    let e = level[first + 3] + 32;
    assert(block[h] == a / 16 + 4 * (b / 16) + 16 * (c / 16) + 64 * (e / 16));
    lemma_pairs(a / 16, b / 16, c / 16, e / 16);
    let own = level[j] + 32;
    assert(own == own % 16 + 16 * (own / 16));
    assert(own == (if j % 4 == 0 {
        a
    } else if j % 4 == 1 {
        b
    } else if j % 4 == 2 {
        c
    } else {
        e
    }));
    assert(plane_pair(s, at + 18, j) == own / 16);
    assert(nibble(s, at + 2, j) == own % 16);
}

/// A plain number is read from its own bytes, low byte first: all four of a single, or two,
/// which are a half or the upper half of a single.
pub proof fn law_plain_numbers_read_back(s: Seq<u8>, x: u32, h: u16, i: int)
    requires
        0 <= i,
    ensures
        s[4 * i] == x % 256 && s[4 * i + 1] == x / 256 % 256 && s[4 * i + 2] == x / 65536 % 256 && s[4 * i + 3] == x
            / 16777216 ==> term_of(Dt::F32, s, i) == Term::Plain(x),
        s[2 * i] == h % 256 && s[2 * i + 1] == h / 256 ==> term_of(Dt::F16, s, i) == Term::Plain(half_to_single(h))
            && term_of(Dt::BF16, s, i) == Term::Plain((65536 * h) as u32),
{
    assert(i / 1 == i && i % 1 == 0);
    crate::quant::lemma_four_bytes(x as int);
    assert(x as int / 16777216 % 256 == x as int / 16777216);
}

/// The level that is kept of a rounded one is the nearest that the format has room for: from
/// -127 to 127 in eight bits, and else from minus half the levels up.
pub proof fn law_kept_levels_are_nearest(dt: Dt, level: int, other: int)
    requires
        levelled(dt),
        dt is Q8 ==> -127 <= other <= 127,
        dt is Q4 ==> -8 <= other <= 7,
        dt is Q5 ==> -16 <= other <= 15,
        dt is Q6 ==> -32 <= other <= 31,
    ensures
        distance(kept_level(dt, level), level) <= distance(other, level),
        dt is Q8 ==> -127 <= kept_level(dt, level) <= 127,
        dt is Q4 ==> -8 <= kept_level(dt, level) <= 7,
        dt is Q5 ==> -16 <= kept_level(dt, level) <= 15,
        dt is Q6 ==> -32 <= kept_level(dt, level) <= 31,
{
}

/// A row takes 4 bytes a weight in `F32`, 2 in the half-width formats, and for each 32 weights
/// 34, 26, 22 or 18 bytes in eight, six, five or four bits; a super-block of 256 takes 144 or
/// 210.
pub proof fn law_rows_take_their_bytes(n: int)
    requires
        0 <= n,
    ensures
        Dt::F32.row_size(n) == 4 * n,
        Dt::F16.row_size(n) == 2 * n,
        Dt::BF16.row_size(n) == 2 * n,
        Dt::Q8.row_size(32 * n) == 34 * n,
        Dt::Q6.row_size(32 * n) == 26 * n,
        Dt::Q5.row_size(32 * n) == 22 * n,
        Dt::Q4.row_size(32 * n) == 18 * n,
        Dt::Q4K.row_size(256 * n) == 144 * n,
        Dt::Q6K.row_size(256 * n) == 210 * n,
        Dt::F32.divides(n) && Dt::F16.divides(n) && Dt::BF16.divides(n),
        Dt::Q8.divides(32 * n) && Dt::Q6.divides(32 * n) && Dt::Q5.divides(32 * n) && Dt::Q4.divides(32 * n),
        Dt::Q4K.divides(256 * n) && Dt::Q6K.divides(256 * n),
        n % 32 != 0 ==> !Dt::Q8.divides(n) && !Dt::Q6.divides(n) && !Dt::Q5.divides(n) && !Dt::Q4.divides(n),
        n % 256 != 0 ==> !Dt::Q4K.divides(n) && !Dt::Q6K.divides(n),
{
    assert(n / 1 == n && n % 1 == 0);
    assert((32 * n) / 32 == n && (256 * n) / 256 == n);
}

} // verus!
