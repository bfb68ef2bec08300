//! Block-quantised tensor views: how weights are laid out in bytes.
//!
//! Every weight is exposed as a [`QT`]: a borrowed, row-major 2-D view over bytes
//! that live in a memory map. Here a row is read as scales and integer levels,
//! and written from them; what is multiplied with what is part of the format,
//! the multiplication itself is done in floating point elsewhere.

use vstd::prelude::*;
use crate::float::{
    f16_to_f32, f32_to_bf16, f32_to_f16, half_magnitude, half_to_single, law_narrowing_is_close, law_widening_is_exact,
    single_magnitude, single_to_brain, single_to_half,
};
use crate::text::same;

verus! {

/// Elements per quantisation block.
pub const BLK: usize = 32;

/// Elements per super-block in the K-quant formats GGUF uses.
pub const SUPER: usize = 256;

/// Storage format of a weight tensor.
#[derive(Clone, Copy, PartialEq, Eq, Debug, Structural)]
pub enum Dt {
    F32,
    F16,
    BF16,
    /// 8-bit symmetric, f16 scale per 32 values (8.5 bits/weight).
    Q8,
    /// 4-bit symmetric, f16 scale per 32 values (4.5 bits/weight).
    Q4,
    /// 6-bit symmetric, f16 scale per 32 values (6.5 bits/weight).
    Q6,
    /// 5-bit symmetric, f16 scale per 32 values (5.5 bits/weight). Byte-for-byte
    /// GGUF's `Q5_0`, so such a file is read in place with no conversion.
    Q5,
    /// GGUF `Q4_K`: 256-value super-blocks, eight 32-value sub-blocks each with a
    /// 6-bit scale and minimum. Read-only.
    Q4K,
    /// GGUF `Q6_K`: 256-value super-blocks with 8-bit sub-block scales. Read-only.
    Q6K,
}

/// The name of a format.
pub open spec fn name_of(dt: Dt) -> Seq<char> {
    match dt {
        Dt::F32 => "F32"@,
        Dt::F16 => "F16"@,
        Dt::BF16 => "BF16"@,
        Dt::Q8 => "Q8"@,
        Dt::Q4 => "Q4"@,
        Dt::Q5 => "Q5"@,
        Dt::Q4K => "Q4_K"@,
        Dt::Q6K => "Q6_K"@,
        Dt::Q6 => "Q6"@,
    }
}

/// The format that a name asks for. The K-quant formats cannot be asked for.
pub open spec fn format_named(s: Seq<char>) -> Option<Dt> {
    if s == "F32"@ || s == "f32"@ {
        Some(Dt::F32)
    } else if s == "F16"@ || s == "f16"@ {
        Some(Dt::F16)
    } else if s == "BF16"@ || s == "bf16"@ {
        Some(Dt::BF16)
    } else if s == "Q8"@ || s == "q8"@ {
        Some(Dt::Q8)
    } else if s == "Q4"@ || s == "q4"@ {
        Some(Dt::Q4)
    } else if s == "Q5"@ || s == "q5"@ {
        Some(Dt::Q5)
    } else if s == "Q6"@ || s == "q6"@ {
        Some(Dt::Q6)
    } else {
        None
    }
}

/// Elements per block of a format, where it has blocks.
pub open spec fn block_of(dt: Dt) -> int {
    match dt {
        Dt::Q8 | Dt::Q4 | Dt::Q5 | Dt::Q6 => 32,
        Dt::Q4K | Dt::Q6K => 256,
        _ => 1,
    }
}

/// Bytes per block of a format.
pub open spec fn block_bytes(dt: Dt) -> int {
    match dt {
        Dt::F32 => 4,
        Dt::F16 | Dt::BF16 => 2,
        Dt::Q8 => 34,
        Dt::Q4 => 18,
        // A nibble each, plus one spare bit per value packed 8 to a byte.
        Dt::Q5 => 22,
        // A nibble each, plus two spare bits per value packed 4 to a byte.
        Dt::Q6 => 26,
        // Two f16 scales, twelve packed 6-bit scale/min pairs, then nibbles.
        Dt::Q4K => 144,
        // Nibbles, 2-bit plane, sixteen 8-bit sub-scales, one f16 scale.
        Dt::Q6K => 210,
    }
}

impl Dt {
    /// Bytes of `cols` contiguous elements.
    pub open spec fn row_size(self, cols: int) -> int {
        cols / block_of(self) * block_bytes(self)
    }

    /// Whether a row of `cols` elements can be stored.
    pub open spec fn divides(self, cols: int) -> bool {
        cols % block_of(self) == 0
    }

    pub fn parse(s: &str) -> (r: Option<Dt>)
        ensures
            r == format_named(s@),
    {
        if same(s, "F32") || same(s, "f32") {
            Some(Dt::F32)
        } else if same(s, "F16") || same(s, "f16") {
            Some(Dt::F16)
        } else if same(s, "BF16") || same(s, "bf16") {
            Some(Dt::BF16)
        } else if same(s, "Q8") || same(s, "q8") {
            Some(Dt::Q8)
        } else if same(s, "Q4") || same(s, "q4") {
            Some(Dt::Q4)
        } else if same(s, "Q5") || same(s, "q5") {
            Some(Dt::Q5)
        } else if same(s, "Q6") || same(s, "q6") {
            Some(Dt::Q6)
        } else {
            None
        }
    }

    pub fn name(self) -> (r: &'static str)
        ensures
            r@ == name_of(self),
    {
        match self {
            Dt::F32 => "F32",
            Dt::F16 => "F16",
            Dt::BF16 => "BF16",
            Dt::Q8 => "Q8",
            Dt::Q4 => "Q4",
            Dt::Q5 => "Q5",
            Dt::Q4K => "Q4_K",
            Dt::Q6K => "Q6_K",
            Dt::Q6 => "Q6",
        }
    }

    /// Bytes needed for `cols` contiguous elements, where a machine word holds
    /// the number.
    pub fn checked_row_bytes(self, cols: usize) -> (r: Option<usize>)
        ensures
            match r {
                Some(n) => n == self.row_size(cols as int),
                None => self.row_size(cols as int) > usize::MAX,
            },
    {
        match self {
            Dt::F32 => cols.checked_mul(4),
            Dt::F16 | Dt::BF16 => cols.checked_mul(2),
            Dt::Q8 => (cols / BLK).checked_mul(34),
            Dt::Q4 => (cols / BLK).checked_mul(18),
            Dt::Q5 => (cols / BLK).checked_mul(22),
            Dt::Q6 => (cols / BLK).checked_mul(26),
            Dt::Q4K => (cols / SUPER).checked_mul(144),
            Dt::Q6K => (cols / SUPER).checked_mul(210),
        }
    }

    /// Bytes needed for `cols` contiguous elements.
    pub fn row_bytes(self, cols: usize) -> (r: usize)
        requires
            self.row_size(cols as int) <= usize::MAX,
        ensures
            r == self.row_size(cols as int),
    {
        match self.checked_row_bytes(cols) {
            Some(n) => n,
            None => 0,
        }
    }

    /// Whether a row of `cols` elements can be stored in this format.
    pub fn fits(self, cols: usize) -> (r: bool)
        ensures
            r == self.divides(cols as int),
    {
        match self {
            Dt::Q8 | Dt::Q4 | Dt::Q5 | Dt::Q6 => cols % BLK == 0,
            Dt::Q4K | Dt::Q6K => cols % SUPER == 0,
            _ => true,
        }
    }
}

/// Names round trip through parsing, but for the read-only formats, whose names
/// are not accepted.
pub proof fn law_names_round_trip(dt: Dt)
    ensures
        format_named(name_of(dt)) == (if dt is Q4K || dt is Q6K {
            None
        } else {
            Some(dt)
        }),
{
    reveal_strlit("F32");
    reveal_strlit("f32");
    reveal_strlit("F16");
    reveal_strlit("f16");
    reveal_strlit("BF16");
    reveal_strlit("bf16");
    reveal_strlit("Q8");
    reveal_strlit("q8");
    reveal_strlit("Q4");
    reveal_strlit("q4");
    reveal_strlit("Q5");
    reveal_strlit("q5");
    reveal_strlit("Q6");
    reveal_strlit("q6");
    reveal_strlit("Q4_K");
    reveal_strlit("Q6_K");
    assert("F16"@ != "F32"@ && "F16"@ != "f32"@) by {
        assert("F16"@[1] == '1' && "F32"@[1] == '3');
        assert("F16"@[0] == 'F' && "f32"@[0] == 'f');
    }
    assert("Q8"@[1] == '8' && "Q4"@[1] == '4' && "Q5"@[1] == '5' && "Q6"@[1] == '6');
    assert("q8"@[0] == 'q' && "q4"@[0] == 'q' && "q5"@[0] == 'q' && "Q8"@[0] == 'Q');
    assert("Q4"@[0] == 'Q' && "Q5"@[0] == 'Q' && "Q6"@[0] == 'Q');
    assert("Q4_K"@[0] == 'Q' && "Q6_K"@[0] == 'Q' && "BF16"@[0] == 'B' && "bf16"@[0] == 'b');
    assert("Q4_K"@.len() == 4 && "Q6_K"@.len() == 4);
}

/// A row-major 2-D weight view. `data` points into a memory map that outlives
/// the process, which is what lets the whole engine stay copy-free.
#[derive(Clone, Copy)]
pub struct QT {
    pub dt: Dt,
    pub rows: usize,
    pub cols: usize,
    pub data: &'static [u8],
}

impl QT {
    /// The view has as many bytes as its rows take.
    pub open spec fn valid(self) -> bool {
        self.data@.len() == self.rows * self.dt.row_size(self.cols as int)
    }

    pub fn new(dt: Dt, rows: usize, cols: usize, data: &'static [u8]) -> (t: QT)
        requires
            data@.len() == rows * dt.row_size(cols as int),
        ensures
            t == (QT { dt, rows, cols, data }),
            t.valid(),
    {
        QT { dt, rows, cols, data }
    }

    /// The bytes of row `r`.
    pub fn row(&self, r: usize) -> (b: &'static [u8])
        requires
            self.valid(),
            r < self.rows,
        ensures
            b@ == self.data@.subrange(
                r * self.dt.row_size(self.cols as int),
                (r + 1) * self.dt.row_size(self.cols as int),
            ),
            b@.len() == self.dt.row_size(self.cols as int),
    {
        let ghost w = self.dt.row_size(self.cols as int);
        let ghost rows = self.rows as int;
        let ghost k = r as int;
        assert(self.data.len() == self.data@.len());
        proof {
            assert(w >= 0) by {
                if self.dt is Q8 || self.dt is Q4 || self.dt is Q5 || self.dt is Q6 || self.dt is Q4K || self.dt is Q6K {
                    assert(self.cols as int / block_of(self.dt) >= 0);
                }
            }
            assert(w <= rows * w) by (nonlinear_arith)
                requires
                    rows >= 1,
                    w >= 0,
            ;
            assert((k + 1) * w <= rows * w) by (nonlinear_arith)
                requires
                    k + 1 <= rows,
                    w >= 0,
            ;
            assert(k * w + w == (k + 1) * w && 0 <= k * w) by (nonlinear_arith)
                requires
                    k >= 0,
                    w >= 0,
            ;
        }
        let s: usize = self.dt.row_bytes(self.cols);
        let a: usize = r * s;
        let b: usize = (r + 1) * s;
        &self.data[a..b]
    }
}

/// What one stored weight is worth, as the format has it: bit patterns of
/// single-precision numbers, and the integers they are multiplied with.
#[derive(Clone, Copy, PartialEq, Eq, Debug, Structural)]
pub enum Term {
    /// A number as it stands.
    Plain(u32),
    /// `scale * level`.
    Scaled(u32, i32),
    /// `scale * part * level`, from the left.
    Parted(u32, i32, i32),
    /// `(scale * part) * level - floor * offset`, as scale, part, level, floor
    /// and offset.
    Floored(u32, i32, i32, u32, i32),
}

/// Two bytes as a number, low byte first.
pub open spec fn le16(s: Seq<u8>, at: int) -> u16 {
    (s[at] + 256 * s[at + 1]) as u16
}

/// Four bytes as a number, low byte first.
pub open spec fn le32(s: Seq<u8>, at: int) -> u32 {
    (s[at] + 256 * s[at + 1] + 65536 * s[at + 2] + 16777216 * s[at + 3]) as u32
}

/// A byte read as a signed number.
pub open spec fn signed_byte(b: u8) -> int {
    if b < 128 {
        b as int
    } else {
        b - 256
    }
}

/// Two to the power of `k`, below eight.
pub open spec fn power(k: int) -> int {
    if k == 0 {
        1
    } else if k == 1 {
        2
    } else if k == 2 {
        4
    } else if k == 3 {
        8
    } else if k == 4 {
        16
    } else if k == 5 {
        32
    } else if k == 6 {
        64
    } else {
        128
    }
}

/// The nibble of value `j` in a plane of sixteen bytes from `at` on: value `j` in
/// the low half of byte `j`, value `j + 16` in the high half.
pub open spec fn nibble(s: Seq<u8>, at: int, j: int) -> int {
    if j < 16 {
        s[at + j] as int % 16
    } else {
        s[at + j - 16] as int / 16
    }
}

/// The bit of value `j` in a plane from `at` on that holds one bit per value.
pub open spec fn plane_bit(s: Seq<u8>, at: int, j: int) -> int {
    s[at + j / 8] as int / power(j % 8) % 2
}

/// The two bits of value `j` in a plane from `at` on that holds two per value.
pub open spec fn plane_pair(s: Seq<u8>, at: int, j: int) -> int {
    s[at + j / 4] as int / power(2 * (j % 4)) % 4
}

/// The six-bit scale of sub-block `j` in the twelve packed bytes from `at` on.
pub open spec fn packed_scale(s: Seq<u8>, at: int, j: int) -> int {
    if j < 4 {
        s[at + j] as int % 64
    } else {
        s[at + j + 4] as int % 16 + 16 * (s[at + j - 4] as int / 64)
    }
}

/// The six-bit minimum of sub-block `j` in the twelve packed bytes from `at` on.
pub open spec fn packed_floor(s: Seq<u8>, at: int, j: int) -> int {
    if j < 4 {
        s[at + j + 4] as int % 64
    } else {
        s[at + j + 4] as int / 16 + 16 * (s[at + j] as int / 64)
    }
}

/// Value `j` of the super-block at `at` in the `Q4_K` format: 64 values share 32
/// bytes, the first 32 of them in the low nibbles.
pub open spec fn term_q4k(s: Seq<u8>, at: int, j: int) -> Term {
    let q = s[at + 16 + j / 64 * 32 + j % 32] as int;
    Term::Floored(
        half_to_single(le16(s, at)),
        packed_scale(s, at + 4, j / 32) as i32,
        (if j % 64 < 32 {
            q % 16
        } else {
            q / 16
        }) as i32,
        half_to_single(le16(s, at + 2)),
        packed_floor(s, at + 4, j / 32) as i32,
    )
}

/// Value `j` of the super-block at `at` in the `Q6_K` format: of every 128 values,
/// the first 64 are in the low nibbles of 64 bytes and the others in the high
/// ones; four values share a byte of the two-bit plane; sixteen share a scale.
pub open spec fn term_q6k(s: Seq<u8>, at: int, j: int) -> Term {
    let n = j / 128;
    let group = j % 128 / 32;
    let l = j % 32;
    let q = s[at + n * 64 + group % 2 * 32 + l] as int;
    let high = s[at + 128 + n * 32 + l] as int / power(2 * group) % 4;
    Term::Parted(
        half_to_single(le16(s, at + 208)),
        signed_byte(s[at + 192 + n * 8 + l / 16 + 2 * group]) as i32,
        ((if group < 2 {
            q % 16
        } else {
            q / 16
        }) + 16 * high - 32) as i32,
    )
}

/// The level of value `j` of the block at `at`.
pub open spec fn level_at(dt: Dt, s: Seq<u8>, at: int, j: int) -> int {
    match dt {
        Dt::Q8 => signed_byte(s[at + 2 + j]),
        Dt::Q4 => nibble(s, at + 2, j) - 8,
        Dt::Q5 => nibble(s, at + 6, j) + 16 * plane_bit(s, at + 2, j) - 16,
        _ => nibble(s, at + 2, j) + 16 * plane_pair(s, at + 18, j) - 32,
    }
}

/// What weight `i` of a packed row is worth.
pub open spec fn term_of(dt: Dt, s: Seq<u8>, i: int) -> Term {
    let at = i / block_of(dt) * block_bytes(dt);
    let j = i % block_of(dt);
    match dt {
        Dt::F32 => Term::Plain(le32(s, at)),
        Dt::F16 => Term::Plain(half_to_single(le16(s, at))),
        Dt::BF16 => Term::Plain((le16(s, at) * 65536) as u32),
        Dt::Q8 | Dt::Q4 | Dt::Q5 | Dt::Q6 => Term::Scaled(
            half_to_single(le16(s, at)),
            level_at(dt, s, at, j) as i32,
        ),
        Dt::Q4K => term_q4k(s, at, j),
        Dt::Q6K => term_q6k(s, at, j),
    }
}

pub(crate) fn read16(s: &[u8], at: usize) -> (r: u16)
    requires
        at + 2 <= s@.len(),
    ensures
        r == le16(s@, at as int),
{
    assert(s.len() == s@.len());
    s[at] as u16 + 256 * s[at + 1] as u16
}

pub(crate) fn read32(s: &[u8], at: usize) -> (r: u32)
    requires
        at + 4 <= s@.len(),
    ensures
        r == le32(s@, at as int),
{
    assert(s.len() == s@.len());
    s[at] as u32 + 256 * s[at + 1] as u32 + 65536 * s[at + 2] as u32 + 16777216 * s[at + 3] as u32
}

fn power_of(k: usize) -> (r: u8)
    ensures
        r == power(k as int),
        r > 0,
{
    match k {
        0 => 1,
        1 => 2,
        2 => 4,
        3 => 8,
        4 => 16,
        5 => 32,
        6 => 64,
        _ => 128,
    }
}

fn signed_of(b: u8) -> (r: i32)
    ensures
        r == signed_byte(b),
{
    if b < 128 {
        b as i32
    } else {
        b as i32 - 256
    }
}

fn read_nibble(s: &[u8], at: usize, j: usize) -> (r: i32)
    requires
        j < 32,
        at + 16 <= s@.len(),
    ensures
        r == nibble(s@, at as int, j as int),
        0 <= r < 16,
{
    assert(s.len() == s@.len());
    if j < 16 {
        (s[at + j] % 16) as i32
    } else {
        (s[at + (j - 16)] / 16) as i32
    }
}

fn term_in_q4k(s: &[u8], at: usize, j: usize) -> (r: Term)
    requires
        j < 256,
        at + 144 <= s@.len(),
    ensures
        r == term_q4k(s@, at as int, j as int),
{
    assert(s.len() == s@.len());
    let k: usize = j / 32;
    let (scale, floor): (i32, i32) = if k < 4 {
        ((s[at + 4 + k] % 64) as i32, (s[at + 4 + k + 4] % 64) as i32)
    } else {
        (
            (s[at + 4 + k + 4] % 16 + 16 * (s[at + 4 + (k - 4)] / 64)) as i32,
            (s[at + 4 + k + 4] / 16 + 16 * (s[at + 4 + k] / 64)) as i32,
        )
    };
    let q: u8 = s[at + 16 + j / 64 * 32 + j % 32];
    let level: i32 = if j % 64 < 32 {
        (q % 16) as i32
    } else {
        (q / 16) as i32
    };
    Term::Floored(f16_to_f32(read16(s, at)), scale, level, f16_to_f32(read16(s, at + 2)), floor)
}

fn term_in_q6k(s: &[u8], at: usize, j: usize) -> (r: Term)
    requires
        j < 256,
        at + 210 <= s@.len(),
    ensures
        r == term_q6k(s@, at as int, j as int),
{
    assert(s.len() == s@.len());
    let n: usize = j / 128;
    let group: usize = j % 128 / 32;
    let l: usize = j % 32;
    let q: u8 = s[at + n * 64 + group % 2 * 32 + l];
    let p: u8 = power_of(2 * group);
    let high: u8 = s[at + 128 + n * 32 + l] / p % 4;
    let low: u8 = if group < 2 {
        q % 16
    } else {
        q / 16
    };
    Term::Parted(
        f16_to_f32(read16(s, at + 208)),
        signed_of(s[at + 192 + n * 8 + l / 16 + 2 * group]),
        low as i32 + 16 * high as i32 - 32,
    )
}

/// The block of a weight lies inside its row.
pub proof fn lemma_block_inside(dt: Dt, cols: int, i: int)
    requires
        0 <= i < cols,
        dt.divides(cols),
    ensures
        0 <= i / block_of(dt) * block_bytes(dt),
        i / block_of(dt) * block_bytes(dt) + block_bytes(dt) <= dt.row_size(cols),
        0 <= i % block_of(dt) < block_of(dt),
{
    let b = block_of(dt);
    let w = block_bytes(dt);
    let q = i / b;
    let n = cols / b;
    assert(0 <= q < n) by (nonlinear_arith)
        requires
            b > 0,
            0 <= i < cols,
            cols % b == 0,
            q == i / b,
            n == cols / b,
    ;
    assert(0 <= q * w && q * w + w <= n * w) by (nonlinear_arith)
        requires
            0 <= q,
            q + 1 <= n,
            w > 0,
    ;
}

/// What weight `i` of a packed row of `cols` weights is worth.
pub fn term(dt: Dt, s: &[u8], cols: usize, i: usize) -> (r: Term)
    requires
        i < cols,
        dt.divides(cols as int),
        s@.len() == dt.row_size(cols as int),
    ensures
        r == term_of(dt, s@, i as int),
{
    assert(s.len() == s@.len());
    proof {
        lemma_block_inside(dt, cols as int, i as int);
    }
    match dt {
        Dt::F32 => Term::Plain(read32(s, i * 4)),
        Dt::F16 => Term::Plain(f16_to_f32(read16(s, i * 2))),
        Dt::BF16 => Term::Plain(read16(s, i * 2) as u32 * 65536),
        Dt::Q8 => {
            let at: usize = i / BLK * 34;
            Term::Scaled(f16_to_f32(read16(s, at)), signed_of(s[at + 2 + i % BLK]))
        },
        Dt::Q4 => {
            let at: usize = i / BLK * 18;
            Term::Scaled(f16_to_f32(read16(s, at)), read_nibble(s, at + 2, i % BLK) - 8)
        },
        Dt::Q5 => {
            let at: usize = i / BLK * 22;
            let j: usize = i % BLK;
            let p: u8 = power_of(j % 8);
            let bit: u8 = s[at + 2 + j / 8] / p % 2;
            Term::Scaled(f16_to_f32(read16(s, at)), read_nibble(s, at + 6, j) + 16 * bit as i32 - 16)
        },
        Dt::Q6 => {
            let at: usize = i / BLK * 26;
            let j: usize = i % BLK;
            let p: u8 = power_of(2 * (j % 4));
            let pair: u8 = s[at + 18 + j / 4] / p % 4;
            Term::Scaled(f16_to_f32(read16(s, at)), read_nibble(s, at + 2, j) + 16 * pair as i32 - 32)
        },
        Dt::Q4K => term_in_q4k(s, i / SUPER * 144, i % SUPER),
        Dt::Q6K => term_in_q6k(s, i / SUPER * 210, i % SUPER),
    }
}

/// Expand one packed row of `cols` weights.
pub fn dequant(dt: Dt, s: &[u8], cols: usize) -> (r: Vec<Term>)
    requires
        dt.divides(cols as int),
        s@.len() == dt.row_size(cols as int),
    ensures
        r@ == Seq::new(cols as nat, |i: int| term_of(dt, s@, i)),
{
    let mut out: Vec<Term> = Vec::new();
    let mut i: usize = 0;
    while i < cols
        invariant
            i <= cols,
            dt.divides(cols as int),
            s@.len() == dt.row_size(cols as int),
            out@ == Seq::new(i as nat, |k: int| term_of(dt, s@, k)),
        decreases cols - i,
    {
        out.push(term(dt, s, cols, i));
        i += 1;
        assert(out@ =~= Seq::new(i as nat, |k: int| term_of(dt, s@, k)));
    }
    out
}

/// Whether a format can be written.
pub open spec fn writable(dt: Dt) -> bool {
    !(dt is Q4K || dt is Q6K)
}

/// Whether a format holds levels under a scale per block of 32.
pub open spec fn levelled(dt: Dt) -> bool {
    dt is Q8 || dt is Q4 || dt is Q5 || dt is Q6
}

/// The levels on either side of zero that the largest magnitude of a block is
/// spread over.
pub open spec fn reach_of(dt: Dt) -> int {
    match dt {
        Dt::Q8 => 127,
        Dt::Q4 => 7,
        Dt::Q5 => 15,
        Dt::Q6 => 31,
        _ => 0,
    }
}

/// `v`, moved into the range from `lo` to `hi`.
pub open spec fn clamped(v: int, lo: int, hi: int) -> int {
    if v < lo {
        lo
    } else if v > hi {
        hi
    } else {
        v
    }
}

/// The level that a format keeps of a rounded one.
pub open spec fn kept_level(dt: Dt, level: int) -> int {
    match dt {
        Dt::Q8 => clamped(level, -127, 127),
        Dt::Q4 => clamped(level, -8, 7),
        Dt::Q5 => clamped(level, -16, 15),
        _ => clamped(level, -32, 31),
    }
}

/// The unsigned code of a level: what is left when the format's offset is added,
/// or its byte where the format stores levels signed.
pub open spec fn code_of(dt: Dt, level: int) -> int {
    let v = kept_level(dt, level);
    match dt {
        Dt::Q8 => if v < 0 {
            v + 256
        } else {
            v
        },
        Dt::Q4 => v + 8,
        Dt::Q5 => v + 16,
        _ => v + 32,
    }
}

/// Bit 4 of a code.
pub open spec fn fifth(c: int) -> int {
    c / 16 % 2
}

/// Byte `at` of the block whose levels stand from `from` on.
pub open spec fn block_byte(dt: Dt, scale: u16, levels: Seq<i32>, from: int, at: int) -> int {
    if at == 0 {
        scale as int % 256
    } else if at == 1 {
        scale as int / 256
    } else {
        match dt {
            Dt::Q8 => code_of(dt, levels[from + at - 2] as int),
            Dt::Q4 => nibbles_at(dt, levels, from, at - 2),
            Dt::Q5 => if at < 6 {
                bits_at(dt, levels, from + 8 * (at - 2))
            } else {
                nibbles_at(dt, levels, from, at - 6)
            },
            _ => if at < 18 {
                nibbles_at(dt, levels, from, at - 2)
            } else {
                pairs_at(dt, levels, from + 4 * (at - 18))
            },
        }
    }
}

/// Byte `k` of a row of levels under scales.
pub open spec fn packed_byte(dt: Dt, scales: Seq<u32>, levels: Seq<i32>, k: int) -> int {
    let blk = k / block_bytes(dt);
    block_byte(dt, single_to_half(scales[blk]), levels, blk * 32, k % block_bytes(dt))
}

/// The low nibbles of values `j` and `j + 16`, sharing a byte.
pub open spec fn nibbles_at(dt: Dt, levels: Seq<i32>, from: int, j: int) -> int {
    code_of(dt, levels[from + j] as int) % 16 + 16 * (code_of(dt, levels[from + j + 16] as int) % 16)
}

/// Bit 4 of eight values, sharing a byte.
pub open spec fn bits_at(dt: Dt, levels: Seq<i32>, from: int) -> int {
    let b = |m: int| fifth(code_of(dt, levels[from + m] as int));
    b(0) + 2 * b(1) + 4 * b(2) + 8 * b(3) + 16 * b(4) + 32 * b(5) + 64 * b(6) + 128 * b(7)
}

/// Bits 4 and 5 of four values, sharing a byte.
pub open spec fn pairs_at(dt: Dt, levels: Seq<i32>, from: int) -> int {
    let p = |m: int| code_of(dt, levels[from + m] as int) / 16;
    p(0) + 4 * p(1) + 16 * p(2) + 64 * p(3)
}

/// What is to be written into a row.
pub enum Row {
    /// Single-precision numbers, as their bits.
    Plain(Vec<u32>),
    /// A scale per block of 32, as its bits, and the weights in units of it,
    /// rounded.
    Levels(Vec<u32>, Vec<i32>),
}

impl Row {
    /// How many weights the row has.
    pub open spec fn width(self) -> int {
        match self {
            Row::Plain(v) => v@.len() as int,
            Row::Levels(scales, levels) => levels@.len() as int,
        }
    }

    /// The row is of the kind that `dt` is written from.
    pub open spec fn suits(self, dt: Dt) -> bool {
        match self {
            Row::Plain(v) => writable(dt) && !levelled(dt),
            Row::Levels(scales, levels) => levelled(dt) && levels@.len() == scales@.len() * 32,
        }
    }
}

/// Byte `k` of a row as it is stored.
pub open spec fn stored_byte(dt: Dt, row: Row, k: int) -> int {
    match row {
        Row::Plain(v) => {
            let w = block_bytes(dt);
            let x = v@[k / w] as int;
            match dt {
                Dt::F32 => x / place(k % 4) % 256,
                Dt::F16 => single_to_half(v@[k / w]) as int / place(k % 2) % 256,
                _ => single_to_brain(v@[k / w]) as int / place(k % 2) % 256,
            }
        },
        Row::Levels(scales, levels) => packed_byte(dt, scales@, levels@, k),
    }
}

/// What byte `k` of a number counts.
pub open spec fn place(k: int) -> int {
    if k == 0 {
        1
    } else if k == 1 {
        256
    } else if k == 2 {
        65536
    } else {
        16777216
    }
}

/// The bytes of a row as it is stored.
pub open spec fn stored(dt: Dt, row: Row) -> Seq<u8> {
    Seq::new(dt.row_size(row.width()) as nat, |k: int| stored_byte(dt, row, k) as u8)
}

/// The levels on either side of zero that the largest magnitude of a block is
/// spread over: none where a format has no levels.
pub fn reach(dt: Dt) -> (r: i32)
    ensures
        r == reach_of(dt),
{
    match dt {
        Dt::Q8 => 127,
        Dt::Q4 => 7,
        Dt::Q5 => 15,
        Dt::Q6 => 31,
        _ => 0,
    }
}

fn clamp(v: i32, lo: i32, hi: i32) -> (r: i32)
    ensures
        r == clamped(v as int, lo as int, hi as int),
{
    if v < lo {
        lo
    } else if v > hi {
        hi
    } else {
        v
    }
}

fn code(dt: Dt, level: i32) -> (r: u8)
    requires
        levelled(dt),
    ensures
        r == code_of(dt, level as int),
        !(dt is Q8) ==> r < 64,
{
    match dt {
        Dt::Q8 => {
            let v: i32 = clamp(level, -127, 127);
            if v < 0 {
                (v + 256) as u8
            } else {
                v as u8
            }
        },
        Dt::Q4 => (clamp(level, -8, 7) + 8) as u8,
        Dt::Q5 => (clamp(level, -16, 15) + 16) as u8,
        _ => (clamp(level, -32, 31) + 32) as u8,
    }
}

fn share_nibbles(dt: Dt, levels: &Vec<i32>, from: usize, j: usize) -> (r: u8)
    requires
        levelled(dt),
        from + j + 16 < levels@.len(),
    ensures
        r == nibbles_at(dt, levels@, from as int, j as int),
{
    assert(levels.len() == levels@.len());
    code(dt, levels[from + j]) % 16 + 16 * (code(dt, levels[from + j + 16]) % 16)
}

fn share_bits(dt: Dt, levels: &Vec<i32>, from: usize) -> (r: u8)
    requires
        levelled(dt),
        from + 8 <= levels@.len(),
    ensures
        r == bits_at(dt, levels@, from as int),
{
    assert(levels.len() == levels@.len());
    code(dt, levels[from]) / 16 % 2 + 2 * (code(dt, levels[from + 1]) / 16 % 2) + 4 * (code(dt, levels[from + 2]) / 16
        % 2) + 8 * (code(dt, levels[from + 3]) / 16 % 2) + 16 * (code(dt, levels[from + 4]) / 16 % 2) + 32 * (code(
        dt,
        levels[from + 5],
    ) / 16 % 2) + 64 * (code(dt, levels[from + 6]) / 16 % 2) + 128 * (code(dt, levels[from + 7]) / 16 % 2)
}

fn share_pairs(dt: Dt, levels: &Vec<i32>, from: usize) -> (r: u8)
    requires
        dt is Q6,
        from + 4 <= levels@.len(),
    ensures
        r == pairs_at(dt, levels@, from as int),
{
    assert(levels.len() == levels@.len());
    code(dt, levels[from]) / 16 + 4 * (code(dt, levels[from + 1]) / 16) + 16 * (code(dt, levels[from + 2]) / 16) + 64
        * (code(dt, levels[from + 3]) / 16)
}

fn place_of(k: usize) -> (r: u32)
    ensures
        r == place(k as int),
        r > 0,
{
    match k {
        0 => 1,
        1 => 256,
        2 => 65536,
        _ => 16777216,
    }
}

fn plain_byte(dt: Dt, v: &Vec<u32>, k: usize) -> (r: u8)
    requires
        writable(dt) && !levelled(dt),
        k < dt.row_size(v@.len() as int),
    ensures
        r == {
            let w = block_bytes(dt);
            let x = v@[k as int / w] as int;
            match dt {
                Dt::F32 => x / place(k as int % 4) % 256,
                Dt::F16 => single_to_half(v@[k as int / w]) as int / place(k as int % 2) % 256,
                _ => single_to_brain(v@[k as int / w]) as int / place(k as int % 2) % 256,
            }
        },
{
    assert(v@.len() as int / 1 == v@.len());
    assert(!(dt is F32) ==> dt.row_size(v@.len() as int) == v@.len() * 2);
    match dt {
        Dt::F32 => {
            let p: u32 = place_of(k % 4);
            (v[k / 4] / p % 256) as u8
        },
        Dt::F16 => {
            let p: u32 = place_of(k % 2);
            (f32_to_f16(v[k / 2]) as u32 / p % 256) as u8
        },
        _ => {
            let p: u32 = place_of(k % 2);
            (f32_to_bf16(v[k / 2]) as u32 / p % 256) as u8
        },
    }
}

fn level_byte(dt: Dt, scales: &Vec<u32>, levels: &Vec<i32>, k: usize) -> (r: u8)
    requires
        levelled(dt),
        levels@.len() == scales@.len() * 32,
        k < dt.row_size(levels@.len() as int),
    ensures
        r == packed_byte(dt, scales@, levels@, k as int),
{
    let width: usize = match dt {
        Dt::Q8 => 34,
        Dt::Q4 => 18,
        Dt::Q5 => 22,
        _ => 26,
    };
    let blk: usize = k / width;
    let at: usize = k % width;
    assert(levels.len() == levels@.len());
    assert(dt.row_size(levels@.len() as int) == scales@.len() * width);
    proof {
        let n = scales@.len() as int;
        let w = width as int;
        assert(0 <= k as int / w < n) by (nonlinear_arith)
            requires
                0 <= k < n * w,
                w > 0,
        ;
    }
    let from: usize = blk * 32;
    if at == 0 {
        (f32_to_f16(scales[blk]) % 256) as u8
    } else if at == 1 {
        (f32_to_f16(scales[blk]) / 256) as u8
    } else {
        match dt {
            Dt::Q8 => code(dt, levels[from + (at - 2)]),
            Dt::Q4 => share_nibbles(dt, levels, from, at - 2),
            Dt::Q5 => if at < 6 {
                share_bits(dt, levels, from + 8 * (at - 2))
            } else {
                share_nibbles(dt, levels, from, at - 6)
            },
            _ => if at < 18 {
                share_nibbles(dt, levels, from, at - 2)
            } else {
                share_pairs(dt, levels, from + 4 * (at - 18))
            },
        }
    }
}

/// Pack one row into `dt`. The K-quant formats are read-only, and have no row to
/// pack.
pub fn quantize(dt: Dt, row: &Row) -> (r: Vec<u8>)
    requires
        row.suits(dt),
        dt.row_size(row.width()) <= usize::MAX,
    ensures
        r@ == stored(dt, *row),
{
    let cols: usize = match row {
        Row::Plain(v) => v.len(),
        Row::Levels(_, levels) => levels.len(),
    };
    let n: usize = dt.row_bytes(cols);
    let mut out: Vec<u8> = Vec::new();
    let mut k: usize = 0;
    while k < n
        invariant
            k <= n,
            n == dt.row_size(row.width()),
            row.suits(dt),
            out@.len() == k,
            forall|m: int| 0 <= m < k ==> out@[m] == stored_byte(dt, *row, m) as u8,
        decreases n - k,
    {
        let b: u8 = match row {
            Row::Plain(v) => plain_byte(dt, v, k),
            Row::Levels(scales, levels) => level_byte(dt, scales, levels, k),
        };
        out.push(b);
        k += 1;
    }
    assert(out@ =~= stored(dt, *row));
    out
}

proof fn lemma_bits(b0: int, b1: int, b2: int, b3: int, b4: int, b5: int, b6: int, b7: int)
    requires
        0 <= b0 <= 1,
        0 <= b1 <= 1,
        0 <= b2 <= 1,
        0 <= b3 <= 1,
        0 <= b4 <= 1,
        0 <= b5 <= 1,
        0 <= b6 <= 1,
        0 <= b7 <= 1,
    ensures
        ({
            let v = b0 + 2 * b1 + 4 * b2 + 8 * b3 + 16 * b4 + 32 * b5 + 64 * b6 + 128 * b7;
            &&& 0 <= v < 256
            &&& v % 2 == b0
            &&& v / 2 % 2 == b1
            &&& v / 4 % 2 == b2
            &&& v / 8 % 2 == b3
            &&& v / 16 % 2 == b4
            &&& v / 32 % 2 == b5
            &&& v / 64 % 2 == b6
            &&& v / 128 % 2 == b7
        }),
{
    let v = b0 + 2 * b1 + 4 * b2 + 8 * b3 + 16 * b4 + 32 * b5 + 64 * b6 + 128 * b7;
    assert(v / 128 == b7);
    assert(v / 64 == b6 + 2 * b7);
    assert(v / 32 == b5 + 2 * (b6 + 2 * b7));
    assert(v / 16 == b4 + 2 * (b5 + 2 * (b6 + 2 * b7)));
    assert(v / 8 == b3 + 2 * (b4 + 2 * (b5 + 2 * (b6 + 2 * b7))));
    assert(v / 4 == b2 + 2 * (b3 + 2 * (b4 + 2 * (b5 + 2 * (b6 + 2 * b7)))));
    assert(v / 2 == b1 + 2 * (b2 + 2 * (b3 + 2 * (b4 + 2 * (b5 + 2 * (b6 + 2 * b7))))));
}

proof fn lemma_pairs(p0: int, p1: int, p2: int, p3: int)
    requires
        0 <= p0 <= 3,
        0 <= p1 <= 3,
        0 <= p2 <= 3,
        0 <= p3 <= 3,
    ensures
        ({
            let v = p0 + 4 * p1 + 16 * p2 + 64 * p3;
            &&& 0 <= v < 256
            &&& v % 4 == p0
            &&& v / 4 % 4 == p1
            &&& v / 16 % 4 == p2
            &&& v / 64 % 4 == p3
        }),
{
    let v = p0 + 4 * p1 + 16 * p2 + 64 * p3;
    assert(v / 64 == p3);
    assert(v / 16 == p2 + 4 * p3);
    assert(v / 4 == p1 + 4 * (p2 + 4 * p3));
}

proof fn lemma_byte(dt: Dt, row: Row, blk: int, m: int)
    requires
        row matches Row::Levels(scales, levels) && row.suits(dt) && 0 <= blk < scales@.len(),
        0 <= m < block_bytes(dt),
    ensures
        stored(dt, row)[blk * block_bytes(dt) + m] == block_byte(
            dt,
            single_to_half(row->Levels_0@[blk]),
            row->Levels_1@,
            blk * 32,
            m,
        ) as u8,
{
    let w = block_bytes(dt);
    let k = blk * w + m;
    lemma_block_inside(dt, row.width(), blk * 32);
    assert(k / w == blk && k % w == m) by (nonlinear_arith)
        requires
            k == blk * w + m,
            0 <= m < w,
    ;
    assert(stored(dt, row)[k] == stored_byte(dt, row, k) as u8);
}

proof fn lemma_scale(dt: Dt, row: Row, blk: int)
    requires
        row matches Row::Levels(scales, levels) && row.suits(dt) && 0 <= blk < scales@.len(),
    ensures
        le16(stored(dt, row), blk * block_bytes(dt)) == single_to_half(row->Levels_0@[blk]),
{
    lemma_byte(dt, row, blk, 0);
    lemma_byte(dt, row, blk, 1);
}

proof fn lemma_nibble(dt: Dt, s: Seq<u8>, levels: Seq<i32>, from: int, at: int, j: int)
    requires
        0 <= j < 32,
        s[at + j % 16] == nibbles_at(dt, levels, from, j % 16) as u8,
    ensures
        nibble(s, at, j) == code_of(dt, levels[from + j] as int) % 16,
{
    let lo = code_of(dt, levels[from + j % 16] as int) % 16;
    let hi = code_of(dt, levels[from + j % 16 + 16] as int) % 16;
    let v = lo + 16 * hi;
    assert(v % 16 == lo && v / 16 == hi);
}

proof fn lemma_bit(s: Seq<u8>, levels: Seq<i32>, from: int, at: int, j: int)
    requires
        0 <= j < 32,
        s[at + j / 8] == bits_at(Dt::Q5, levels, from + 8 * (j / 8)) as u8,
    ensures
        plane_bit(s, at, j) == code_of(Dt::Q5, levels[from + j] as int) / 16,
{
    let base = from + 8 * (j / 8);
    let b = |m: int| fifth(code_of(Dt::Q5, levels[base + m] as int));
    lemma_bits(b(0), b(1), b(2), b(3), b(4), b(5), b(6), b(7));
    let m = j % 8;
    assert(base + m == from + j);
    assert(plane_bit(s, at, j) == b(m));
}

proof fn lemma_pair(s: Seq<u8>, levels: Seq<i32>, from: int, at: int, j: int)
    requires
        0 <= j < 32,
        s[at + j / 4] == pairs_at(Dt::Q6, levels, from + 4 * (j / 4)) as u8,
    ensures
        plane_pair(s, at, j) == code_of(Dt::Q6, levels[from + j] as int) / 16,
{
    let base = from + 4 * (j / 4);
    let p = |m: int| code_of(Dt::Q6, levels[base + m] as int) / 16;
    lemma_pairs(p(0), p(1), p(2), p(3));
    let m = j % 4;
    assert(base + m == from + j);
    assert(plane_pair(s, at, j) == p(m));
}

#[verifier::spinoff_prover]
#[verifier::rlimit(40)]
proof fn lemma_level_q8(row: Row, blk: int, j: int)
    requires
        row matches Row::Levels(scales, levels) && row.suits(Dt::Q8) && 0 <= blk < scales@.len(),
        0 <= j < 32,
    ensures
        level_at(Dt::Q8, stored(Dt::Q8, row), blk * 34, j) == kept_level(Dt::Q8, row->Levels_1@[blk * 32 + j] as int),
{
    let s = stored(Dt::Q8, row);
    let levels = row->Levels_1@;
    let from = blk * 32;
    let at = blk * block_bytes(Dt::Q8);
    lemma_byte(Dt::Q8, row, blk, 2 + j);
}

#[verifier::spinoff_prover]
#[verifier::rlimit(40)]
proof fn lemma_level_q4(row: Row, blk: int, j: int)
    requires
        row matches Row::Levels(scales, levels) && row.suits(Dt::Q4) && 0 <= blk < scales@.len(),
        0 <= j < 32,
    ensures
        level_at(Dt::Q4, stored(Dt::Q4, row), blk * 18, j) == kept_level(Dt::Q4, row->Levels_1@[blk * 32 + j] as int),
{
    let s = stored(Dt::Q4, row);
    let levels = row->Levels_1@;
    let from = blk * 32;
    let at = blk * block_bytes(Dt::Q4);
    lemma_byte(Dt::Q4, row, blk, 2 + j % 16);
    assert(at == blk * 18);
    assert(s[at + 2 + j % 16] == nibbles_at(Dt::Q4, levels, from, j % 16) as u8);
    lemma_nibble(Dt::Q4, s, levels, from, at + 2, j);
}

#[verifier::spinoff_prover]
#[verifier::rlimit(40)]
proof fn lemma_level_q5(row: Row, blk: int, j: int)
    requires
        row matches Row::Levels(scales, levels) && row.suits(Dt::Q5) && 0 <= blk < scales@.len(),
        0 <= j < 32,
    ensures
        level_at(Dt::Q5, stored(Dt::Q5, row), blk * 22, j) == kept_level(Dt::Q5, row->Levels_1@[blk * 32 + j] as int),
{
    let s = stored(Dt::Q5, row);
    let levels = row->Levels_1@;
    let from = blk * 32;
    let at = blk * block_bytes(Dt::Q5);
    lemma_byte(Dt::Q5, row, blk, 6 + j % 16);
    assert(at == blk * 22);
    assert(s[at + 6 + j % 16] == nibbles_at(Dt::Q5, levels, from, j % 16) as u8);
    lemma_nibble(Dt::Q5, s, levels, from, at + 6, j);
    lemma_byte(Dt::Q5, row, blk, 2 + j / 8);
    lemma_bit(s, levels, from, at + 2, j);
}

#[verifier::spinoff_prover]
#[verifier::rlimit(40)]
proof fn lemma_level_q6(row: Row, blk: int, j: int)
    requires
        row matches Row::Levels(scales, levels) && row.suits(Dt::Q6) && 0 <= blk < scales@.len(),
        0 <= j < 32,
    ensures
        level_at(Dt::Q6, stored(Dt::Q6, row), blk * 26, j) == kept_level(Dt::Q6, row->Levels_1@[blk * 32 + j] as int),
{
    let s = stored(Dt::Q6, row);
    let levels = row->Levels_1@;
    let from = blk * 32;
    let at = blk * block_bytes(Dt::Q6);
    lemma_byte(Dt::Q6, row, blk, 2 + j % 16);
    assert(at == blk * 26);
    assert(s[at + 2 + j % 16] == nibbles_at(Dt::Q6, levels, from, j % 16) as u8);
    lemma_nibble(Dt::Q6, s, levels, from, at + 2, j);
    lemma_byte(Dt::Q6, row, blk, 18 + j / 4);
    lemma_pair(s, levels, from, at + 18, j);
}

/// A written row reads back as the levels that the format keeps, each under its
/// block's scale as half precision has it.
pub proof fn law_levels_round_trip(dt: Dt, row: Row, i: int)
    requires
        row matches Row::Levels(scales, levels) && row.suits(dt) && 0 <= i < levels@.len(),
    ensures
        term_of(dt, stored(dt, row), i) == Term::Scaled(
            half_to_single(single_to_half(row->Levels_0@[i / 32])),
            kept_level(dt, row->Levels_1@[i] as int) as i32,
        ),
{
    let blk = i / 32;
    let j = i % 32;
    lemma_scale(dt, row, blk);
    assert(blk * 32 + j == i);
    match dt {
        Dt::Q8 => lemma_level_q8(row, blk, j),
        Dt::Q4 => lemma_level_q4(row, blk, j),
        Dt::Q5 => lemma_level_q5(row, blk, j),
        _ => lemma_level_q6(row, blk, j),
    }
}

/// How far apart two numbers are.
pub open spec fn distance(a: int, b: int) -> int {
    if a >= b {
        a - b
    } else {
        b - a
    }
}

/// Whether `scale` is what single precision makes of `top / reach`, `top` being
/// counted in parts of which `unit` make 2^-47: it lies within 2^-24 of the
/// quotient, in half precision's ordinary range.
pub open spec fn is_scale(scale: u32, top: int, reach: int, unit: int) -> bool {
    &&& scale >> 31 == 0
    &&& 113 <= (scale >> 23) & 0xff <= 142
    &&& (single_to_half(scale) >> 10) & 0x1f != 0x1f
    &&& 16777216 * distance(reach * (single_magnitude(scale) * unit), top) <= top
}

/// Whether `level` is the nearest to `value / step`, give or take what single
/// precision loses in the quotient: no more than half a step and its 512th part.
pub open spec fn is_nearest(level: int, value: int, step: int) -> bool {
    1024 * distance(value, level * step) <= 513 * step
}

/// The arithmetic of [`law_error_is_bounded`]: a step that lies within a 2048th
/// part of a scale, which lies within 2^-24 of `top / reach`.
proof fn lemma_error(reach: int, value: int, top: int, scale: int, step: int, level: int)
    requires
        reach == 7 || reach == 15 || reach == 31 || reach == 127,
        -top <= value <= top,
        0 < step,
        2048 * distance(step, scale) <= scale,
        16777216 * distance(reach * scale, top) <= top,
        is_nearest(level, value, step),
    ensures
        -reach <= level <= reach,
        100 * (reach * distance(value, level * step)) <= 51 * top,
{
    let reached = level * step;
    if level > reach {
        assert(level * step >= (reach + 1) * step) by (nonlinear_arith)
            requires
                level >= reach + 1,
                step > 0,
        ;
    }
    if level < -reach {
        assert(level * step <= (-reach - 1) * step) by (nonlinear_arith)
            requires
                level <= -reach - 1,
                step > 0,
        ;
    }
    if reach == 7 {
        assert(level > 7 ==> reached >= 8 * step);
        assert(level < -7 ==> reached <= -8 * step);
    } else if reach == 15 {
        assert(level > 15 ==> reached >= 16 * step);
        assert(level < -15 ==> reached <= -16 * step);
    } else if reach == 31 {
        assert(level > 31 ==> reached >= 32 * step);
        assert(level < -31 ==> reached <= -32 * step);
    } else {
        assert(level > 127 ==> reached >= 128 * step);
        assert(level < -127 ==> reached <= -128 * step);
    }
}

/// A value comes back close to what was stored: within 51 hundredths of the step
/// that its own block's largest magnitude is cut into, and whatever the other
/// blocks hold. `value`, and `top`, the largest magnitude of its block, are counted
/// in parts of which `unit` make 2^-47, so that any two finite numbers can be
/// written out in full; the number read back is its level times its scale.
pub proof fn law_error_is_bounded(dt: Dt, row: Row, i: int, value: int, top: int, unit: int)
    requires
        row matches Row::Levels(scales, levels) && row.suits(dt) && 0 <= i < levels@.len(),
        -top <= value <= top,
        0 < unit,
        is_scale(row->Levels_0@[i / 32], top, reach_of(dt), unit),
        is_nearest(
            row->Levels_1@[i] as int,
            value,
            half_magnitude(single_to_half(row->Levels_0@[i / 32])) * unit,
        ),
    ensures
        term_of(dt, stored(dt, row), i) matches Term::Scaled(scale, level) && scale >> 31 == 0
            && 100 * (reach_of(dt) * distance(value, level * (single_magnitude(scale) * unit))) <= 51 * top,
{
    let x = row->Levels_0@[i / 32];
    let half = single_to_half(x);
    let level = row->Levels_1@[i] as int;
    law_levels_round_trip(dt, row, i);
    law_narrowing_is_close(x);
    law_widening_is_exact(half);
    assert(x >> 31 == 0 ==> single_to_half(x) >> 15 == 0) by (bit_vector);
    let near = half_magnitude(half) as int;
    let wide = single_magnitude(x) as int;
    assert(2048 * distance(near * unit, wide * unit) <= wide * unit && near * unit > 0) by (nonlinear_arith)
        requires
            2048 * distance(near, wide) <= wide,
            near > 0,
            unit > 0,
    ;
    lemma_error(reach_of(dt), value, top, wide * unit, near * unit, level);
    assert(kept_level(dt, level) == level);
}

pub proof fn lemma_four_bytes(x: int)
    requires
        0 <= x < 4294967296,
    ensures
        x % 256 + 256 * (x / 256 % 256) + 65536 * (x / 65536 % 256) + 16777216 * (x / 16777216 % 256) == x,
{
    let a = x / 256;
    let b = a / 256;
    let c = b / 256;
    assert(b == x / 65536);
    assert(c == x / 16777216);
    assert(c < 256);
    assert(x == x % 256 + 256 * a);
    assert(a == a % 256 + 256 * b);
    assert(b == b % 256 + 256 * c);
}

proof fn lemma_plain_byte(dt: Dt, row: Row, i: int, m: int)
    requires
        row matches Row::Plain(v) && row.suits(dt) && 0 <= i < v@.len(),
        0 <= m < block_bytes(dt),
    ensures
        stored(dt, row)[i * block_bytes(dt) + m] == (match dt {
            Dt::F32 => row->Plain_0@[i] as int,
            Dt::F16 => single_to_half(row->Plain_0@[i]) as int,
            _ => single_to_brain(row->Plain_0@[i]) as int,
        }) / place(m) % 256,
{
    let v = row->Plain_0@;
    let w = block_bytes(dt);
    let k = i * w + m;
    assert(v.len() as int / 1 == v.len());
    assert(dt.row_size(v.len() as int) == v.len() * w);
    assert(k / w == i && k % w == m && k < v.len() * w) by (nonlinear_arith)
        requires
            k == i * w + m,
            0 <= m < w,
            0 <= i < v.len(),
    ;
    assert(stored(dt, row)[k] == stored_byte(dt, row, k) as u8);
}

/// A row written as plain numbers reads back as those numbers: as they stand in
/// `F32`, as the format rounds them in the two shorter ones.
pub proof fn law_plain_round_trip(dt: Dt, row: Row, i: int)
    requires
        row matches Row::Plain(v) && row.suits(dt) && 0 <= i < v@.len(),
    ensures
        term_of(dt, stored(dt, row), i) == Term::Plain(
            match dt {
                Dt::F32 => row->Plain_0@[i],
                Dt::F16 => half_to_single(single_to_half(row->Plain_0@[i])),
                _ => (single_to_brain(row->Plain_0@[i]) * 65536) as u32,
            },
        ),
{
    let v = row->Plain_0@;
    let x = v[i] as int;
    assert(i / 1 == i);
    if dt is F32 {
        lemma_plain_byte(dt, row, i, 0);
        lemma_plain_byte(dt, row, i, 1);
        lemma_plain_byte(dt, row, i, 2);
        lemma_plain_byte(dt, row, i, 3);
        lemma_four_bytes(x);
    } else {
        lemma_plain_byte(dt, row, i, 0);
        lemma_plain_byte(dt, row, i, 1);
    }
}

/// More bits take more space: of two block formats the one with more levels is the larger,
/// and all are smaller than plain numbers.
pub proof fn law_more_bits_take_more_space(cols: int)
    requires
        cols > 0,
        Dt::Q4.divides(cols),
    ensures
        Dt::Q4.row_size(cols) < Dt::Q5.row_size(cols) < Dt::Q6.row_size(cols) < Dt::Q8.row_size(cols) < Dt::F16.row_size(cols)
            < Dt::F32.row_size(cols),
        Dt::BF16.row_size(cols) == Dt::F16.row_size(cols),
        reach_of(Dt::Q4) < reach_of(Dt::Q5) < reach_of(Dt::Q6) < reach_of(Dt::Q8),
{
}

} // verus!
