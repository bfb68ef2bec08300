//! Weight storage. One lookup API over three containers:
//!
//! * a Hugging Face directory of `*.safetensors` shards, read in place;
//! * a packed `.moe` file, which is the same tensors re-quantised and laid out
//!   so that each expert is one contiguous range;
//! * a GGUF file, whose tensors are renamed on the way in.
//!
//! All are memory mapped and never copied. Every length and offset in all three
//! headers is checked before use, and each tensor is found to lie inside its map
//! when the index is built.

use vstd::prelude::*;
use vstd::slice::slice_subrange;
use vstd::string::*;
use crate::gguf::{info_views, le64, read64, rename, renamed, Gguf, GgufV, Info, InfoV};
use crate::index::{ascending, tabled, Index, Rec};
use crate::json::{elements, entries, Json, JsonV};
use crate::parse::{parse, parsed};
use crate::quant::{format_named, le32, lemma_four_bytes, read32, Dt, QT};
use crate::text::{decimal, decimal_of, join, join3, same, trim, trimmed};

verus! {

/// The version of the packed format.
pub const VERSION: u32 = 1;

/// What a store was read from.
#[derive(Clone, Copy, PartialEq, Eq, Debug, Structural)]
pub enum Container {
    Safetensors,
    Packed,
    Gguf,
}

impl Container {
    pub open spec fn spelled(self) -> Seq<char> {
        match self {
            Container::Safetensors => "safetensors"@,
            Container::Packed => "packed"@,
            Container::Gguf => "gguf"@,
        }
    }

    /// The container's name.
    pub fn name(self) -> (r: &'static str)
        ensures
            r@ == self.spelled(),
    {
        match self {
            Container::Safetensors => "safetensors",
            Container::Packed => "packed",
            Container::Gguf => "gguf",
        }
    }
}

/// Why a file is refused.
#[derive(Debug)]
pub enum Refusal {
    /// A shard too short for its length field.
    ShortShard,
    /// A shard whose header is longer than the file.
    LongHeader,
    /// The packed magic is missing.
    NotPacked,
    /// A packed format that this build does not speak.
    Version(u32),
    /// A packed header longer than the file.
    LongPacked,
    /// A header that is no JSON, and why.
    BadHeader(String),
    /// A tensor that does not lie inside the file.
    Outside(String),
}

/// What a [`Refusal`] holds.
pub enum RefusalV {
    ShortShard,
    LongHeader,
    NotPacked,
    Version(u32),
    LongPacked,
    BadHeader(Seq<char>),
    Outside(Seq<char>),
}

impl View for Refusal {
    type V = RefusalV;

    open spec fn view(&self) -> RefusalV {
        match *self {
            Refusal::ShortShard => RefusalV::ShortShard,
            Refusal::LongHeader => RefusalV::LongHeader,
            Refusal::NotPacked => RefusalV::NotPacked,
            Refusal::Version(v) => RefusalV::Version(v),
            Refusal::LongPacked => RefusalV::LongPacked,
            Refusal::BadHeader(e) => RefusalV::BadHeader(e@),
            Refusal::Outside(n) => RefusalV::Outside(n@),
        }
    }
}

impl RefusalV {
    /// What is wrong with the file at `path`, in words.
    pub open spec fn message(self, path: Seq<char>) -> Seq<char> {
        match self {
            RefusalV::ShortShard => "truncated safetensors file"@,
            RefusalV::LongHeader => "safetensors header longer than file"@,
            RefusalV::NotPacked => path + " is not a .moe file"@,
            RefusalV::Version(v) => "packed format v"@ + decimal_of(v as nat) + ", this build speaks v1"@,
            RefusalV::LongPacked => "packed header longer than file"@,
            RefusalV::BadHeader(e) => "bad header: "@ + e,
            RefusalV::Outside(n) => n + " lies outside the file"@,
        }
    }
}

impl Refusal {
    /// What is wrong with the file at `path`, in words.
    pub fn message(&self, path: &str) -> (r: String)
        ensures
            r@ == self@.message(path@),
    {
        match self {
            Refusal::ShortShard => "truncated safetensors file".to_owned(),
            Refusal::LongHeader => "safetensors header longer than file".to_owned(),
            Refusal::NotPacked => join(path, " is not a .moe file"),
            Refusal::Version(v) => join3(
                "packed format v",
                decimal(*v as u64).as_str(),
                ", this build speaks v1",
            ),
            Refusal::LongPacked => "packed header longer than file".to_owned(),
            Refusal::BadHeader(e) => join("bad header: ", e.as_str()),
            Refusal::Outside(n) => join(n.as_str(), " lies outside the file"),
        }
    }
}

/// Where the payload of a shard begins: after eight bytes of length and as many
/// bytes of header.
pub open spec fn shard_start(b: Seq<u8>) -> Result<int, RefusalV> {
    if b.len() < 8 {
        Err(RefusalV::ShortShard)
    } else if 8 + le64(b, 0) > b.len() {
        Err(RefusalV::LongHeader)
    } else {
        Ok(8 + le64(b, 0))
    }
}

/// The magic of a packed file.
pub open spec fn has_packed_magic(b: Seq<u8>) -> bool {
    b.len() >= 16 && b[0] == 77 && b[1] == 79 && b[2] == 69 && b[3] == 70
}

/// Where the payload of a packed file begins: after the magic, a version, eight
/// bytes of length and as many bytes of header.
pub open spec fn packed_start(b: Seq<u8>) -> Result<int, RefusalV> {
    if !has_packed_magic(b) {
        Err(RefusalV::NotPacked)
    } else if le32(b, 4) != VERSION {
        Err(RefusalV::Version(le32(b, 4)))
    } else if 16 + le64(b, 8) > b.len() {
        Err(RefusalV::LongPacked)
    } else {
        Ok(16 + le64(b, 8))
    }
}

/// Where the header of a shard ends. It begins at byte 8.
pub fn shard_header(b: &[u8]) -> (r: Result<usize, Refusal>)
    ensures
        match r {
            Ok(n) => shard_start(b@) == Ok::<int, RefusalV>(n as int) && 8 <= n <= b@.len(),
            Err(e) => shard_start(b@) == Err::<int, RefusalV>(e@),
        },
{
    if b.len() < 8 {
        return Err(Refusal::ShortShard);
    }
    let n: u64 = read64(b, 0);
    if n > (b.len() - 8) as u64 {
        return Err(Refusal::LongHeader);
    }
    Ok(8 + n as usize)
}

/// Where the header of a packed file ends. It begins at byte 16.
pub fn packed_header(b: &[u8]) -> (r: Result<usize, Refusal>)
    ensures
        match r {
            Ok(n) => packed_start(b@) == Ok::<int, RefusalV>(n as int) && 16 <= n <= b@.len(),
            Err(e) => packed_start(b@) == Err::<int, RefusalV>(e@),
        },
{
    if b.len() < 16 || b[0] != 77 || b[1] != 79 || b[2] != 69 || b[3] != 70 {
        return Err(Refusal::NotPacked);
    }
    let version: u32 = read32(b, 4);
    if version != VERSION {
        return Err(Refusal::Version(version));
    }
    let n: u64 = read64(b, 8);
    if n > (b.len() - 16) as u64 {
        return Err(Refusal::LongPacked);
    }
    Ok(16 + n as usize)
}

/// The first bytes of a packed file whose header takes `n` bytes.
pub open spec fn preamble_of(n: u64) -> Seq<u8> {
    seq![77u8, 79, 69, 70, 1, 0, 0, 0] + Seq::new(8, |i: int| (n as int / byte_place(i) % 256) as u8)
}

/// What byte `i` of a number counts.
pub open spec fn byte_place(i: int) -> int {
    if i == 0 {
        1
    } else if i == 1 {
        0x100
    } else if i == 2 {
        0x1_0000
    } else if i == 3 {
        0x100_0000
    } else if i == 4 {
        0x1_0000_0000
    } else if i == 5 {
        0x100_0000_0000
    } else if i == 6 {
        0x1_0000_0000_0000
    } else {
        0x100_0000_0000_0000
    }
}

/// The first bytes of a packed file whose header takes `n` bytes.
pub fn preamble(n: u64) -> (r: Vec<u8>)
    ensures
        r@ == preamble_of(n),
{
    let mut out: Vec<u8> = vec![77u8, 79, 69, 70, 1, 0, 0, 0];
    let mut rest: u64 = n;
    let mut i: usize = 0;
    while i < 8
        invariant
            i <= 8,
            out@.len() == 8 + i,
            i < 8 ==> rest == n as int / byte_place(i as int),
            out@.take(8) == seq![77u8, 79, 69, 70, 1, 0, 0, 0],
            forall|k: int| 0 <= k < i ==> out@[8 + k] == n as int / byte_place(k) % 256,
        decreases 8 - i,
    {
        out.push((rest % 256) as u8);
        rest = rest / 256;
        i += 1;
        assert(out@.take(8) =~= seq![77u8, 79, 69, 70, 1, 0, 0, 0]);
    }
    assert(out@ =~= preamble_of(n)) by {
        assert forall|k: int| 0 <= k < 8 implies out@[k] == preamble_of(n)[k] by {
            assert(out@.take(8)[k] == out@[k]);
        }
    }
    out
}

proof fn lemma_low_half(x: int)
    requires
        0 <= x < 0x1_0000_0000_0000_0000,
    ensures
        x % 256 + 256 * (x / 0x100 % 256) + 65536 * (x / 0x1_0000 % 256) + 16777216 * (x / 0x100_0000 % 256) == x
            % 0x1_0000_0000,
{
    let a = x / 0x100;
    let b = a / 0x100;
    let c = b / 0x100;
    let d = c / 0x100;
    assert(x / 0x1_0000 == b);
    assert(x / 0x100_0000 == c);
    assert(x / 0x1_0000_0000 == d);
    assert(x == x % 0x100 + 0x100 * a);
    assert(a == a % 0x100 + 0x100 * b);
    assert(b == b % 0x100 + 0x100 * c);
    assert(c == c % 0x100 + 0x100 * d);
    assert(x == x % 0x1_0000_0000 + 0x1_0000_0000 * d);
}

proof fn lemma_high_half(x: int)
    requires
        0 <= x < 0x1_0000_0000_0000_0000,
    ensures
        x / 0x1_0000_0000 % 256 + 256 * (x / 0x100_0000_0000 % 256) + 65536 * (x / 0x1_0000_0000_0000 % 256) + 16777216
            * (x / 0x100_0000_0000_0000 % 256) == x / 0x1_0000_0000,
{
    let high = x / 0x1_0000_0000;
    lemma_four_bytes(high);
    assert(x / 0x100_0000_0000 == high / 0x100);
    assert(x / 0x1_0000_0000_0000 == high / 0x1_0000);
    assert(x / 0x100_0000_0000_0000 == high / 0x100_0000);
}

/// What is written before a header says where the header ends.
pub proof fn law_preamble_reads_back(n: u64, rest: Seq<u8>)
    requires
        rest.len() >= n,
    ensures
        packed_start(preamble_of(n) + rest) == Ok::<int, RefusalV>(16 + n),
{
    let b = preamble_of(n) + rest;
    let x = n as int;
    lemma_low_half(x);
    lemma_high_half(x);
    assert(b[8] == x / byte_place(0) % 256 && b[9] == x / byte_place(1) % 256 && b[10] == x / byte_place(2) % 256 && b[11]
        == x / byte_place(3) % 256);
    assert(b[12] == x / byte_place(4) % 256 && b[13] == x / byte_place(5) % 256 && b[14] == x / byte_place(6) % 256
        && b[15] == x / byte_place(7) % 256);
    assert(le32(b, 8) == x % 0x1_0000_0000);
    assert(le32(b, 12) == x / 0x1_0000_0000);
    assert(le64(b, 8) == n);
    assert(b[4] == 1 && b[5] == 0 && b[6] == 0 && b[7] == 0);
    assert(le32(b, 4) == 1);
}

/// The whole numbers among the first `n` values.
pub open spec fn counts(v: Seq<JsonV>, n: nat) -> Seq<usize>
    decreases n,
{
    if n == 0 || n > v.len() {
        Seq::empty()
    } else {
        let rest = counts(v, (n - 1) as nat);
        match v[n - 1].as_u64() {
            Some(d) => rest.push(d as usize),
            None => rest,
        }
    }
}

/// The dimensions that an entry states.
pub open spec fn dims_of(v: JsonV) -> Seq<usize> {
    let shape = elements(v.field("shape"@));
    counts(shape, shape.len())
}

/// What becomes of a tensor that a header describes.
pub enum Found {
    /// It has no role here.
    Skipped,
    /// Where it is said to lie is past all that can be counted.
    Outside,
    At(Rec),
}

/// Slabs, rows and columns of up to three dimensions, the last of them innermost.
pub open spec fn shaped(d: Seq<usize>) -> Option<(usize, usize, usize)> {
    if d.len() == 1 {
        Some((1usize, 1usize, d[0]))
    } else if d.len() == 2 {
        Some((1usize, d[0], d[1]))
    } else if d.len() == 3 {
        Some((d[0], d[1], d[2]))
    } else {
        None
    }
}

/// A tensor at byte `off` of a file. Whether the file holds its bytes is for a view of them
/// to say.
pub open spec fn placed(map: usize, dt: Dt, shape: (usize, usize, usize), off: int) -> Found {
    if off <= usize::MAX {
        Found::At(Rec { map, off: off as usize, dt, slabs: shape.0, rows: shape.1, cols: shape.2 })
    } else {
        Found::Outside
    }
}

/// How a header describes a tensor.
#[derive(Clone, Copy, PartialEq, Eq, Debug, Structural)]
pub enum Layout {
    /// As a shard does: a known `dtype`, one to three dimensions, and byte offsets.
    Shard,
    /// As a packed file does: a `dt`, two or three dimensions, and an offset.
    Packed,
}

/// A number under a key, or zero.
pub open spec fn number_or_zero(v: JsonV) -> int {
    match v.as_u64() {
        Some(n) => n as usize as int,
        None => 0,
    }
}

/// The first element of an array, or null.
pub open spec fn head_of(v: JsonV) -> JsonV {
    match v {
        JsonV::Arr(a) => if a.len() > 0 {
            a[0]
        } else {
            JsonV::Null
        },
        _ => JsonV::Null,
    }
}

/// The tensor that an entry describes, in a file whose payload begins at `start`.
pub open spec fn found(layout: Layout, name: Seq<char>, v: JsonV, start: int, map: usize) -> Found {
    match layout {
        Layout::Shard => {
            let dt = match v.field("dtype"@).as_str() {
                Some(s) => format_named(s),
                None => None,
            };
            if name == "__metadata__"@ {
                Found::Skipped
            } else {
                match (dt, shaped(dims_of(v))) {
                    (Some(dt), Some(shape)) => placed(
                        map,
                        dt,
                        shape,
                        number_or_zero(head_of(v.field("data_offsets"@))) + start,
                    ),
                    _ => Found::Skipped,
                }
            }
        },
        Layout::Packed => {
            let dt = match v.field("dt"@).as_str() {
                Some(s) => match format_named(s) {
                    Some(d) => d,
                    None => Dt::F32,
                },
                None => Dt::F32,
            };
            match shaped(dims_of(v)) {
                Some(shape) => if dims_of(v).len() == 1 {
                    Found::Skipped
                } else {
                    placed(map, dt, shape, number_or_zero(v.field("off"@)) + start)
                },
                None => Found::Skipped,
            }
        },
    }
}

/// The tensors that the first `n` entries describe, or the first one outside.
pub open spec fn recorded(
    layout: Layout,
    m: Seq<(Seq<char>, JsonV)>,
    start: int,
    map: usize,
    n: nat,
) -> Result<Seq<(Seq<char>, Rec)>, RefusalV>
    decreases n,
{
    if n == 0 || n > m.len() {
        Ok(Seq::empty())
    } else {
        match recorded(layout, m, start, map, (n - 1) as nat) {
            Err(e) => Err(e),
            Ok(v) => match found(layout, m[n - 1].0, m[n - 1].1, start, map) {
                Found::Skipped => Ok(v),
                Found::Outside => Err(RefusalV::Outside(m[n - 1].0)),
                Found::At(rec) => Ok(v.push((m[n - 1].0, rec))),
            },
        }
    }
}

/// The tensors that the first `n` descriptions of a GGUF file amount to, under the
/// engine's names, or the first one that does not lie inside its `len` bytes.
pub open spec fn recorded_gguf(
    t: Seq<InfoV>,
    data: int,
    len: int,
    n: nat,
) -> Result<Seq<(Seq<char>, Rec)>, RefusalV>
    decreases n,
{
    if n == 0 || n > t.len() {
        Ok(Seq::empty())
    } else {
        match recorded_gguf(t, data, len, (n - 1) as nat) {
            Err(e) => Err(e),
            Ok(v) => match (renamed(t[n - 1].name), shaped(t[n - 1].shape)) {
                (Some(name), Some(shape)) => match placed(0, t[n - 1].dt, shape, t[n - 1].offset + data) {
                    Found::At(rec) if rec.off + rec.size() <= len => Ok(v.push((name, rec))),
                    _ => Err(RefusalV::Outside(t[n - 1].name)),
                },
                _ => Ok(v),
            },
        }
    }
}

fn dims(v: &Json) -> (r: Vec<usize>)
    ensures
        r@ == dims_of(v@),
{
    let shape: &Json = v.field("shape");
    let n: usize = shape.count();
    let ghost s = elements(shape@);
    let mut out: Vec<usize> = Vec::new();
    let mut i: usize = 0;
    while i < n
        invariant
            i <= n,
            n == s.len(),
            s == elements(shape@),
            out@ == counts(s, i as nat),
        decreases n - i,
    {
        if let Some(d) = shape.item(i).as_u64() {
            out.push(
                #[verifier::truncate]
                (d as usize),
            );
        }
        i += 1;
    }
    out
}

fn shape_of(d: &Vec<usize>) -> (r: Option<(usize, usize, usize)>)
    ensures
        r == shaped(d@),
{
    if d.len() == 1 {
        Some((1, 1, d[0]))
    } else if d.len() == 2 {
        Some((1, d[0], d[1]))
    } else if d.len() == 3 {
        Some((d[0], d[1], d[2]))
    } else {
        None
    }
}

/// The product of three lengths, where it is at most `max`.
fn product_within(a: usize, b: usize, c: usize, max: usize) -> (r: Option<usize>)
    ensures
        match r {
            Some(n) => n == a * b * c && n <= max,
            None => a * b * c > max,
        },
{
    if a == 0 || b == 0 || c == 0 {
        assert(a * b * c == 0) by (nonlinear_arith)
            requires
                a == 0 || b == 0 || c == 0,
        ;
        return Some(0);
    }
    match a.checked_mul(b) {
        None => {
            assert(a * b * c >= a * b) by (nonlinear_arith)
                requires
                    a >= 1,
                    b >= 1,
                    c >= 1,
            ;
            None
        },
        Some(ab) => match ab.checked_mul(c) {
            None => None,
            Some(n) => if n <= max {
                Some(n)
            } else {
                None
            },
        },
    }
}

enum Spot {
    Skipped,
    Outside,
    At(Rec),
}

spec fn spot_view(s: Spot) -> Found {
    match s {
        Spot::Skipped => Found::Skipped,
        Spot::Outside => Found::Outside,
        Spot::At(r) => Found::At(r),
    }
}

fn place(map: usize, dt: Dt, shape: (usize, usize, usize), from: usize, start: usize) -> (r: Spot)
    ensures
        spot_view(r) == placed(map, dt, shape, from + start),
{
    match from.checked_add(start) {
        None => Spot::Outside,
        Some(off) => Spot::At(Rec { map, off, dt, slabs: shape.0, rows: shape.1, cols: shape.2 }),
    }
}

/// How many bytes a tensor takes, where that is at most `max`.
fn size_within(rec: &Rec, max: usize) -> (r: Option<usize>)
    ensures
        match r {
            Some(n) => n == rec.size() && n <= max,
            None => rec.size() > max,
        },
{
    let ghost row = rec.dt.row_size(rec.cols as int);
    proof {
        lemma_row_size(rec.dt, rec.cols as int);
    }
    match rec.dt.checked_row_bytes(rec.cols) {
        Some(stride) => product_within(rec.slabs, rec.rows, stride, max),
        None => {
            if rec.slabs == 0 || rec.rows == 0 {
                assert(rec.slabs * rec.rows * row == 0) by (nonlinear_arith)
                    requires
                        rec.slabs == 0 || rec.rows == 0,
                ;
                Some(0)
            } else {
                assert(rec.slabs * rec.rows * row >= row) by (nonlinear_arith)
                    requires
                        rec.slabs >= 1,
                        rec.rows >= 1,
                        row >= 0,
                ;
                None
            }
        },
    }
}

/// A row takes no negative number of bytes.
pub proof fn lemma_row_size(dt: Dt, cols: int)
    requires
        cols >= 0,
    ensures
        dt.row_size(cols) >= 0,
{
    let b = crate::quant::block_of(dt);
    let w = crate::quant::block_bytes(dt);
    assert(cols / b * w >= 0) by (nonlinear_arith)
        requires
            cols >= 0,
            b > 0,
            w > 0,
    ;
}

fn number_of(v: &Json) -> (r: usize)
    ensures
        r == number_or_zero(v@),
{
    match v.as_u64() {
        Some(n) => #[verifier::truncate]
        (n as usize),
        None => 0,
    }
}

fn find_tensor(layout: Layout, name: &str, v: &Json, start: usize, map: usize) -> (r: Spot)
    ensures
        spot_view(r) == found(layout, name@, v@, start as int, map),
{
    let d: Vec<usize> = dims(v);
    match layout {
        Layout::Shard => {
            if same(name, "__metadata__") {
                return Spot::Skipped;
            }
            let dt: Option<Dt> = match v.field("dtype").as_str() {
                Some(s) => Dt::parse(s),
                None => None,
            };
            match (dt, shape_of(&d)) {
                (Some(dt), Some(shape)) => {
                    let offsets: &Json = v.field("data_offsets");
                    let from: usize = if offsets.count() > 0 {
                        number_of(offsets.item(0))
                    } else {
                        0
                    };
                    place(map, dt, shape, from, start)
                },
                _ => Spot::Skipped,
            }
        },
        Layout::Packed => {
            let dt: Dt = match v.field("dt").as_str() {
                Some(s) => match Dt::parse(s) {
                    Some(d) => d,
                    None => Dt::F32,
                },
                None => Dt::F32,
            };
            match shape_of(&d) {
                Some(shape) => if d.len() == 1 {
                    Spot::Skipped
                } else {
                    place(map, dt, shape, number_of(v.field("off")), start)
                },
                None => Spot::Skipped,
            }
        },
    }
}

/// Once a tensor lies outside, the whole list is refused.
proof fn lemma_refused(layout: Layout, m: Seq<(Seq<char>, JsonV)>, start: int, map: usize, k: nat, n: nat)
    requires
        k <= n <= m.len(),
        recorded(layout, m, start, map, k) is Err,
    ensures
        recorded(layout, m, start, map, n) == recorded(layout, m, start, map, k),
    decreases n,
{
    if k < n {
        lemma_refused(layout, m, start, map, k, (n - 1) as nat);
    }
}

/// The tensors of an index after those of a list are added.
pub open spec fn extended(t: Map<Seq<char>, Rec>, v: Seq<(Seq<char>, Rec)>) -> Map<Seq<char>, Rec>
    decreases v.len(),
{
    if v.len() == 0 {
        t
    } else {
        extended(t, v.drop_last()).insert(v.last().0, v.last().1)
    }
}

#[verifier::loop_isolation(false)]
fn add_tensors(index: &mut Index, layout: Layout, head: &Json, start: usize, map: usize) -> (r: Result<(), Refusal>)
    requires
        old(index).valid(),
    ensures
        final(index).valid(),
        match r {
            Ok(_) => {
                &&& recorded(layout, entries(head@), start as int, map, entries(head@).len()) matches Ok(v)
                &&& final(index).table() == extended(old(index).table(), v)
            },
            Err(e) => recorded(layout, entries(head@), start as int, map, entries(head@).len()) == Err::<
                Seq<(Seq<char>, Rec)>,
                RefusalV,
            >(e@),
        },
{
    let n: usize = head.size();
    let ghost m = entries(head@);
    let ghost table = index.table();
    let ghost mut v: Seq<(Seq<char>, Rec)> = Seq::empty();
    let mut i: usize = 0;
    while i < n
        invariant
            i <= n,
            n == m.len(),
            index.valid(),
            recorded(layout, m, start as int, map, i as nat) == Ok::<Seq<(Seq<char>, Rec)>, RefusalV>(v),
            index.table() == extended(table, v),
        decreases n - i,
    {
        let name: &str = head.key(i);
        match find_tensor(layout, name, head.value(i), start, map) {
            Spot::Skipped => {},
            Spot::Outside => {
                proof {
                    lemma_refused(layout, m, start as int, map, (i + 1) as nat, n as nat);
                }
                return Err(Refusal::Outside(name.to_owned()));
            },
            Spot::At(rec) => {
                index.insert(name.to_owned(), rec);
                proof {
                    let w = v.push((name@, rec));
                    assert(w.drop_last() =~= v);
                    v = w;
                }
            },
        }
        i += 1;
    }
    Ok(())
}

proof fn lemma_gguf_refused(t: Seq<InfoV>, data: int, len: int, k: nat, n: nat)
    requires
        k <= n <= t.len(),
        recorded_gguf(t, data, len, k) is Err,
    ensures
        recorded_gguf(t, data, len, n) == recorded_gguf(t, data, len, k),
    decreases n,
{
    if k < n {
        lemma_gguf_refused(t, data, len, k, (n - 1) as nat);
    }
}

/// A tensor of a file of `len` bytes, where it lies inside.
fn place_inside(dt: Dt, shape: (usize, usize, usize), from: usize, start: usize, len: usize) -> (r: Option<Rec>)
    ensures
        match r {
            Some(rec) => placed(0, dt, shape, from + start) == Found::At(rec) && rec.off + rec.size() <= len,
            None => placed(0, dt, shape, from + start) matches Found::At(rec) ==> rec.off + rec.size() > len,
        },
{
    match place(0, dt, shape, from, start) {
        Spot::At(rec) => {
            proof {
                lemma_size(rec);
            }
            if rec.off > len {
                return None;
            }
            match size_within(&rec, len - rec.off) {
                Some(_) => Some(rec),
                None => None,
            }
        },
        _ => None,
    }
}

#[verifier::loop_isolation(false)]
fn add_gguf(index: &mut Index, t: &Vec<Info>, data: usize, len: usize) -> (r: Result<(), Refusal>)
    requires
        data <= len,
        old(index).valid(),
    ensures
        final(index).valid(),
        match r {
            Ok(_) => {
                &&& recorded_gguf(info_views(t@), data as int, len as int, t@.len()) matches Ok(v)
                &&& final(index).table() == extended(old(index).table(), v)
            },
            Err(e) => recorded_gguf(info_views(t@), data as int, len as int, t@.len()) == Err::<
                Seq<(Seq<char>, Rec)>,
                RefusalV,
            >(e@),
        },
{
    let ghost m = info_views(t@);
    let ghost table = index.table();
    let ghost mut v: Seq<(Seq<char>, Rec)> = Seq::empty();
    let mut i: usize = 0;
    while i < t.len()
        invariant
            i <= t@.len(),
            index.valid(),
            recorded_gguf(m, data as int, len as int, i as nat) == Ok::<Seq<(Seq<char>, Rec)>, RefusalV>(v),
            index.table() == extended(table, v),
        decreases t@.len() - i,
    {
        let info: &Info = &t[i];
        assert(m[i as int] == info@);
        match (rename(info.name.as_str()), shape_of(&info.shape)) {
            (Some(name), Some(shape)) => match place_inside(info.dt, shape, info.offset, data, len) {
                Some(rec) => {
                    let ghost w = v.push((name@, rec));
                    index.insert(name, rec);
                    proof {
                        assert(w.drop_last() =~= v);
                        v = w;
                    }
                },
                None => {
                    proof {
                        assert(recorded_gguf(m, data as int, len as int, (i + 1) as nat) is Err);
                        lemma_gguf_refused(m, data as int, len as int, (i + 1) as nat, t@.len());
                    }
                    return Err(Refusal::Outside(info.name.as_str().to_owned()));
                },
            },
            _ => {},
        }
        i += 1;
    }
    Ok(())
}

/// Whether a tensor lies inside its map.
pub open spec fn inside(rec: Rec, maps: Seq<Seq<u8>>) -> bool {
    rec.map < maps.len() && rec.off + rec.size() <= maps[rec.map as int].len()
}

/// Whether every tensor of an index has a map.
pub open spec fn all_mapped(t: Map<Seq<char>, Rec>, maps: Seq<Seq<u8>>) -> bool {
    forall|n: Seq<char>| #[trigger] t.dom().contains(n) ==> t[n].map < maps.len()
}

/// The bytes of memory maps.
pub open spec fn bytes_of_maps(m: Seq<&'static [u8]>) -> Seq<Seq<u8>> {
    Seq::new(m.len(), |i: int| m[i]@)
}

proof fn lemma_recorded_mapped(layout: Layout, m: Seq<(Seq<char>, JsonV)>, start: int, map: usize, n: nat, k: int)
    requires
        recorded(layout, m, start, map, n) is Ok,
        0 <= k < recorded(layout, m, start, map, n)->Ok_0.len(),
    ensures
        recorded(layout, m, start, map, n)->Ok_0[k].1.map == map,
    decreases n,
{
    if n > 0 && n <= m.len() {
        let v = recorded(layout, m, start, map, (n - 1) as nat)->Ok_0;
        if k < v.len() {
            lemma_recorded_mapped(layout, m, start, map, (n - 1) as nat, k);
        }
    }
}

/// A tensor takes no negative number of bytes.
proof fn lemma_size(rec: Rec)
    ensures
        rec.size() >= 0,
{
    lemma_row_size(rec.dt, rec.cols as int);
    assert(rec.slabs * rec.rows * rec.dt.row_size(rec.cols as int) >= 0) by (nonlinear_arith)
        requires
            rec.slabs >= 0,
            rec.rows >= 0,
            rec.dt.row_size(rec.cols as int) >= 0,
    ;
}

/// Every tensor of a GGUF file that is opened lies inside it.
pub proof fn law_gguf_tensors_lie_inside(t: Seq<InfoV>, data: int, len: int, n: nat, k: int)
    requires
        recorded_gguf(t, data, len, n) is Ok,
        0 <= k < recorded_gguf(t, data, len, n)->Ok_0.len(),
    ensures
        ({
            let rec = recorded_gguf(t, data, len, n)->Ok_0[k].1;
            rec.map == 0 && rec.off + rec.size() <= len
        }),
    decreases n,
{
    if n > 0 && n <= t.len() {
        let v = recorded_gguf(t, data, len, (n - 1) as nat)->Ok_0;
        if k < v.len() {
            law_gguf_tensors_lie_inside(t, data, len, (n - 1) as nat, k);
        }
    }
}

/// What is added to an index is either new or was there.
proof fn lemma_extended(t: Map<Seq<char>, Rec>, v: Seq<(Seq<char>, Rec)>, n: Seq<char>)
    requires
        extended(t, v).dom().contains(n),
    ensures
        (t.dom().contains(n) && extended(t, v)[n] == t[n]) || exists|k: int|
            0 <= k < v.len() && (#[trigger] v[k]).1 == extended(t, v)[n],
    decreases v.len(),
{
    if v.len() > 0 {
        if n == v.last().0 {
            assert(v[v.len() - 1].1 == extended(t, v)[n]);
        } else {
            lemma_extended(t, v.drop_last(), n);
            if exists|k: int| 0 <= k < v.drop_last().len() && (#[trigger] v.drop_last()[k]).1 == extended(
                t,
                v.drop_last(),
            )[n] {
                let k = choose|k: int|
                    0 <= k < v.drop_last().len() && (#[trigger] v.drop_last()[k]).1 == extended(t, v.drop_last())[n];
                assert(v[k].1 == extended(t, v)[n]);
            }
        }
    }
}

/// A store of weights.
pub struct Store {
    pub(crate) maps: Vec<&'static [u8]>,
    pub(crate) index: Index,
    /// The model's original `config.json`, carried through packing.
    pub config: Json,
    /// `tokenizer.json` embedded at pack time, so a `.moe` is one portable file.
    pub tokenizer: Option<Json>,
    /// The checkpoint's own chat template, from `tokenizer_config.json` or a
    /// `chat_template.jinja` beside it. Carried through packing for the same
    /// reason the tokenizer is: a prompt format is part of the model.
    pub chat_template: Option<String>,
    pub container: Container,
}

/// What an optional JSON value holds.
pub open spec fn json_of(v: Option<Json>) -> Option<JsonV> {
    match v {
        Some(j) => Some(j@),
        None => None,
    }
}

/// What an optional text holds.
pub open spec fn text_of(v: Option<String>) -> Option<Seq<char>> {
    match v {
        Some(s) => Some(s@),
        None => None,
    }
}

/// What a [`Store`] holds.
#[verifier::ext_equal]
pub struct StoreV {
    pub maps: Seq<Seq<u8>>,
    pub index: Map<Seq<char>, Rec>,
    pub config: JsonV,
    pub tokenizer: Option<JsonV>,
    pub chat_template: Option<Seq<char>>,
    pub container: Container,
}

impl Store {
    /// What the store holds.
    pub closed spec fn model(self) -> StoreV {
        StoreV {
            maps: bytes_of_maps(self.maps@),
            index: self.index.table(),
            config: self.config@,
            tokenizer: json_of(self.tokenizer),
            chat_template: text_of(self.chat_template),
            container: self.container,
        }
    }
}

/// A shard: its bytes, and its header as JSON.
pub open spec fn shard_views(v: Seq<(&'static [u8], Json)>) -> Seq<(Seq<u8>, JsonV)> {
    Seq::new(v.len(), |i: int| (v[i].0@, v[i].1@))
}

/// The tensors of the first `n` shards. A later shard replaces what an earlier one
/// names alike.
pub open spec fn sharded(v: Seq<(Seq<u8>, JsonV)>, n: nat) -> Result<Map<Seq<char>, Rec>, RefusalV>
    decreases n,
{
    if n == 0 || n > v.len() {
        Ok(Map::empty())
    } else {
        match sharded(v, (n - 1) as nat) {
            Err(e) => Err(e),
            Ok(t) => {
                let (b, head) = v[n - 1];
                match shard_start(b) {
                    Err(e) => Err(e),
                    Ok(start) => match recorded(
                        Layout::Shard,
                        entries(head),
                        start,
                        (n - 1) as usize,
                        entries(head).len(),
                    ) {
                        Err(e) => Err(e),
                        Ok(recs) => Ok(extended(t, recs)),
                    },
                }
            },
        }
    }
}

/// The tensors of a packed file with this header.
pub open spec fn packed_table(b: Seq<u8>, head: JsonV) -> Result<Map<Seq<char>, Rec>, RefusalV> {
    match packed_start(b) {
        Err(e) => Err(e),
        Ok(start) => {
            let m = entries(head.field("tensors"@));
            match recorded(Layout::Packed, m, start, 0, m.len()) {
                Err(e) => Err(e),
                Ok(recs) => Ok(extended(Map::empty(), recs)),
            }
        },
    }
}

/// What a packed file holds: its header, and its tensors.
pub open spec fn packed_file(b: Seq<u8>) -> Result<(JsonV, Map<Seq<char>, Rec>), RefusalV> {
    match packed_start(b) {
        Err(e) => Err(e),
        Ok(start) => match parsed(b.subrange(16, start)) {
            Err(e) => Err(RefusalV::BadHeader(e)),
            Ok(head) => match packed_table(b, head) {
                Err(e) => Err(e),
                Ok(t) => Ok((head, t)),
            },
        },
    }
}

/// The header of a shard.
pub open spec fn shard_head(b: Seq<u8>) -> Result<JsonV, RefusalV> {
    match shard_start(b) {
        Err(e) => Err(e),
        Ok(start) => match parsed(b.subrange(8, start)) {
            Err(e) => Err(RefusalV::BadHeader(e)),
            Ok(head) => Ok(head),
        },
    }
}

/// The first `n` shards with their headers.
pub open spec fn with_heads(v: Seq<Seq<u8>>, n: nat) -> Seq<(Seq<u8>, JsonV)> {
    Seq::new(n, |i: int| (v[i], shard_head(v[i])->Ok_0))
}

/// The tensors of the first `n` shards, whose headers are read one after another. The
/// first shard that is at fault decides what is refused.
pub open spec fn shards_read(v: Seq<Seq<u8>>, n: nat) -> Result<Map<Seq<char>, Rec>, RefusalV>
    decreases n,
{
    if n == 0 || n > v.len() {
        Ok(Map::empty())
    } else {
        match shards_read(v, (n - 1) as nat) {
            Err(e) => Err(e),
            Ok(_) => match shard_head(v[n - 1]) {
                Err(e) => Err(e),
                Ok(_) => sharded(with_heads(v, n), n),
            },
        }
    }
}

/// A config as its file says: null where there is none, or none that can be read.
pub open spec fn config_of(b: Option<Seq<u8>>) -> JsonV {
    match b {
        None => JsonV::Null,
        Some(text) => match parsed(text) {
            Ok(j) => j,
            Err(_) => JsonV::Null,
        },
    }
}

proof fn lemma_same_shards(v: Seq<(Seq<u8>, JsonV)>, w: Seq<(Seq<u8>, JsonV)>, n: nat)
    requires
        n <= v.len(),
        n <= w.len(),
        forall|i: int| 0 <= i < n ==> v[i] == w[i],
    ensures
        sharded(v, n) == sharded(w, n),
    decreases n,
{
    if n > 0 {
        lemma_same_shards(v, w, (n - 1) as nat);
        assert(v[n - 1] == w[n - 1]);
    }
}

/// Shards whose headers can all be read are refused for their tensors alone.
proof fn lemma_heads_read(v: Seq<Seq<u8>>, n: nat)
    requires
        n <= v.len(),
        forall|i: int| 0 <= i < n ==> shard_head(#[trigger] v[i]) is Ok,
    ensures
        shards_read(v, n) == sharded(with_heads(v, n), n),
    decreases n,
{
    if n > 0 {
        lemma_heads_read(v, (n - 1) as nat);
        lemma_same_shards(with_heads(v, n), with_heads(v, (n - 1) as nat), (n - 1) as nat);
        assert(shard_head(v[n - 1]) is Ok);
    }
}

proof fn lemma_read_refused(v: Seq<Seq<u8>>, k: nat, n: nat)
    requires
        k <= n <= v.len(),
        shards_read(v, k) is Err,
    ensures
        shards_read(v, n) == shards_read(v, k),
    decreases n,
{
    if k < n {
        lemma_read_refused(v, k, (n - 1) as nat);
    }
}

/// The header of a shard.
fn read_shard_head(b: &[u8]) -> (r: Result<Json, Refusal>)
    ensures
        match r {
            Ok(j) => shard_head(b@) == Ok::<JsonV, RefusalV>(j@),
            Err(e) => shard_head(b@) == Err::<JsonV, RefusalV>(e@),
        },
{
    let n: usize = match shard_header(b) {
        Err(e) => return Err(e),
        Ok(n) => n,
    };
    match parse(slice_subrange(b, 8, n)) {
        Ok(j) => Ok(j),
        Err(e) => Err(Refusal::BadHeader(e)),
    }
}

/// The tensors of a GGUF file.
pub open spec fn gguf_table(b: Seq<u8>, g: GgufV) -> Result<Map<Seq<char>, Rec>, RefusalV> {
    match recorded_gguf(g.tensors, g.data, b.len() as int, g.tensors.len()) {
        Err(e) => Err(e),
        Ok(recs) => Ok(extended(Map::empty(), recs)),
    }
}

proof fn lemma_shards_refused(v: Seq<(Seq<u8>, JsonV)>, k: nat, n: nat)
    requires
        k <= n <= v.len(),
        sharded(v, k) is Err,
    ensures
        sharded(v, n) == sharded(v, k),
    decreases n,
{
    if k < n {
        lemma_shards_refused(v, k, (n - 1) as nat);
    }
}

proof fn lemma_added_mapped(
    t: Map<Seq<char>, Rec>,
    maps: Seq<Seq<u8>>,
    layout: Layout,
    m: Seq<(Seq<char>, JsonV)>,
    start: int,
    map: usize,
)
    requires
        all_mapped(t, maps),
        map < maps.len(),
        recorded(layout, m, start, map, m.len()) is Ok,
    ensures
        all_mapped(extended(t, recorded(layout, m, start, map, m.len())->Ok_0), maps),
{
    let recs = recorded(layout, m, start, map, m.len())->Ok_0;
    assert forall|n: Seq<char>| #[trigger] extended(t, recs).dom().contains(n) implies extended(t, recs)[n].map
        < maps.len() by {
        lemma_extended(t, recs, n);
        if exists|k: int| 0 <= k < recs.len() && (#[trigger] recs[k]).1 == extended(t, recs)[n] {
            let k = choose|k: int| 0 <= k < recs.len() && (#[trigger] recs[k]).1 == extended(t, recs)[n];
            lemma_recorded_mapped(layout, m, start, map, m.len(), k);
        }
    }
}

impl Store {
    /// Every tensor has a map.
    pub closed spec fn valid(self) -> bool {
        self.index.valid() && all_mapped(self.index.table(), bytes_of_maps(self.maps@))
    }

    /// Open the shards of a Hugging Face model directory, each with its header.
    #[verifier::loop_isolation(false)]
    pub fn open_hf(shards: &Vec<(&'static [u8], Json)>, config: Json, chat_template: Option<String>) -> (r: Result<
        Store,
        Refusal,
    >)
        ensures
            match r {
                Ok(s) => {
                    &&& s.valid()
                    &&& sharded(shard_views(shards@), shards@.len()) == Ok::<Map<Seq<char>, Rec>, RefusalV>(s.model().index)
                    &&& s.model().maps == Seq::new(shards@.len(), |i: int| shards@[i].0@)
                    &&& s.model().config == config@
                    &&& s.model().tokenizer is None
                    &&& s.model().chat_template == text_of(chat_template)
                    &&& s.model().container is Safetensors
                },
                Err(e) => sharded(shard_views(shards@), shards@.len()) == Err::<Map<Seq<char>, Rec>, RefusalV>(e@),
            },
    {
        let ghost v = shard_views(shards@);
        let mut maps: Vec<&'static [u8]> = Vec::new();
        let mut index = Index::new();
        let mut i: usize = 0;
        while i < shards.len()
            invariant
                i <= shards@.len(),
                maps@.len() == i,
                forall|k: int| 0 <= k < i ==> (#[trigger] maps@[k])@ == shards@[k].0@,
                index.valid(),
                sharded(v, i as nat) == Ok::<Map<Seq<char>, Rec>, RefusalV>(index.table()),
                all_mapped(index.table(), bytes_of_maps(maps@)),
            decreases shards@.len() - i,
        {
            let buf: &'static [u8] = shards[i].0;
            assert(v[i as int] == (buf@, shards@[i as int].1@));
            assert(buf.len() == buf@.len());
            match shard_header(buf) {
                Err(e) => {
                    proof {
                        assert(sharded(v, (i + 1) as nat) == Err::<Map<Seq<char>, Rec>, RefusalV>(e@));
                        lemma_shards_refused(v, (i + 1) as nat, shards@.len());
                    }
                    return Err(e);
                },
                Ok(start) => {
                    let ghost before = index.table();
                    let ghost old_maps = bytes_of_maps(maps@);
                    match add_tensors(&mut index, Layout::Shard, &shards[i].1, start, i) {
                        Err(e) => {
                            proof {
                                assert(sharded(v, (i + 1) as nat) == Err::<Map<Seq<char>, Rec>, RefusalV>(e@));
                                lemma_shards_refused(v, (i + 1) as nat, shards@.len());
                            }
                            return Err(e);
                        },
                        Ok(_) => {},
                    }
                    maps.push(buf);
                    proof {
                        let new_maps = bytes_of_maps(maps@);
                        assert(new_maps =~= old_maps.push(buf@));
                        assert(all_mapped(before, new_maps));
                        lemma_added_mapped(
                            before,
                            new_maps,
                            Layout::Shard,
                            entries(v[i as int].1),
                            start as int,
                            i,
                        );
                    }
                },
            }
            i += 1;
        }
        let s = Store { maps, index, config, tokenizer: None, chat_template, container: Container::Safetensors };
        assert(s.model().maps =~= Seq::new(shards@.len(), |i: int| shards@[i].0@));
        Ok(s)
    }

    /// Open the shards of a Hugging Face model directory as they lie in their files, with
    /// the text of its config.
    #[verifier::loop_isolation(false)]
    pub fn read_hf(bufs: &Vec<&'static [u8]>, config: Option<Vec<u8>>, chat_template: Option<String>) -> (r: Result<
        Store,
        Refusal,
    >)
        ensures
            match r {
                Ok(s) => {
                    &&& s.valid()
                    &&& shards_read(bytes_of_maps(bufs@), bufs@.len()) == Ok::<Map<Seq<char>, Rec>, RefusalV>(s.model().index)
                    &&& s.model().maps == bytes_of_maps(bufs@)
                    &&& s.model().config == config_of(
                        match config {
                            Some(b) => Some(b@),
                            None => None,
                        },
                    )
                    &&& s.model().tokenizer is None
                    &&& s.model().chat_template == text_of(chat_template)
                    &&& s.model().container is Safetensors
                },
                Err(e) => shards_read(bytes_of_maps(bufs@), bufs@.len()) == Err::<Map<Seq<char>, Rec>, RefusalV>(e@),
            },
    {
        let ghost v = bytes_of_maps(bufs@);
        let mut shards: Vec<(&'static [u8], Json)> = Vec::new();
        let mut i: usize = 0;
        while i < bufs.len()
            invariant
                i <= bufs@.len(),
                shards@.len() == i,
                forall|k: int| 0 <= k < i ==> shard_head(#[trigger] v[k]) is Ok,
                shard_views(shards@) == with_heads(v, i as nat),
            decreases bufs@.len() - i,
        {
            let buf: &'static [u8] = bufs[i];
            assert(v[i as int] == buf@);
            match read_shard_head(buf) {
                Err(e) => {
                    proof {
                        lemma_heads_read(v, i as nat);
                    }
                    // A shard before this one may be at fault.
                    let earlier: Refusal = match Store::open_hf(&shards, Json::Null, None) {
                        Err(first) => first,
                        Ok(_) => e,
                    };
                    proof {
                        assert(shards_read(v, (i + 1) as nat) == Err::<Map<Seq<char>, Rec>, RefusalV>(earlier@));
                        lemma_read_refused(v, (i + 1) as nat, bufs@.len());
                    }
                    return Err(earlier);
                },
                Ok(head) => {
                    let ghost was = shard_views(shards@);
                    let ghost read = head@;
                    shards.push((buf, head));
                    assert(shard_views(shards@) =~= was.push((buf@, read)));
                    assert(with_heads(v, (i + 1) as nat) =~= with_heads(v, i as nat).push((buf@, read)));
                },
            }
            i += 1;
        }
        proof {
            lemma_heads_read(v, bufs@.len());
            assert(Seq::new(shards@.len(), |i: int| shards@[i].0@) =~= v) by {
                assert forall|k: int| 0 <= k < shards@.len() implies shards@[k].0@ == v[k] by {
                    assert(shard_views(shards@)[k] == with_heads(v, shards@.len())[k]);
                }
            }
        }
        let config: Json = match config {
            None => Json::Null,
            Some(b) => match parse(b.as_slice()) {
                Ok(j) => j,
                Err(_) => Json::Null,
            },
        };
        Store::open_hf(&shards, config, chat_template)
    }

    /// Open a packed file as it lies in its file.
    pub fn read_packed(buf: &'static [u8]) -> (r: Result<Store, Refusal>)
        ensures
            match r {
                Ok(s) => {
                    &&& s.valid()
                    &&& packed_file(buf@) matches Ok((head, table))
                    &&& s.model().index == table
                    &&& s.model().maps == seq![buf@]
                    &&& s.model().config == head.field("config"@)
                    &&& s.model().tokenizer == (match head.field("tokenizer"@) {
                        JsonV::Null => None,
                        t => Some(t),
                    })
                    &&& s.model().chat_template == head.field("chat_template"@).as_str()
                    &&& s.model().container is Packed
                },
                Err(e) => packed_file(buf@) == Err::<(JsonV, Map<Seq<char>, Rec>), RefusalV>(e@),
            },
    {
        let n: usize = match packed_header(buf) {
            Err(e) => return Err(e),
            Ok(n) => n,
        };
        match parse(slice_subrange(buf, 16, n)) {
            Ok(head) => Store::open_packed(buf, &head),
            Err(e) => Err(Refusal::BadHeader(e)),
        }
    }

    /// Open a packed file with its header.
    pub fn open_packed(buf: &'static [u8], head: &Json) -> (r: Result<Store, Refusal>)
        ensures
            match r {
                Ok(s) => {
                    &&& s.valid()
                    &&& packed_table(buf@, head@) == Ok::<Map<Seq<char>, Rec>, RefusalV>(s.model().index)
                    &&& s.model().maps == seq![buf@]
                    &&& s.model().config == head@.field("config"@)
                    &&& s.model().tokenizer == (match head@.field("tokenizer"@) {
                        JsonV::Null => None,
                        t => Some(t),
                    })
                    &&& s.model().chat_template == head@.field("chat_template"@).as_str()
                    &&& s.model().container is Packed
                },
                Err(e) => packed_table(buf@, head@) == Err::<Map<Seq<char>, Rec>, RefusalV>(e@),
            },
    {
        assert(buf.len() == buf@.len());
        let start: usize = match packed_header(buf) {
            Err(e) => return Err(e),
            Ok(n) => n,
        };
        let mut index = Index::new();
        let tensors: &Json = head.field("tensors");
        match add_tensors(&mut index, Layout::Packed, tensors, start, 0) {
            Err(e) => return Err(e),
            Ok(_) => {},
        }
        let maps: Vec<&'static [u8]> = vec![buf];
        proof {
            assert(bytes_of_maps(maps@) =~= seq![buf@]);
            lemma_added_mapped(
                Map::empty(),
                bytes_of_maps(maps@),
                Layout::Packed,
                entries(tensors@),
                start as int,
                0,
            );
        }
        let tokenizer: Option<Json> = match head.field("tokenizer") {
            Json::Null => None,
            v => Some(v.copy()),
        };
        let chat_template: Option<String> = match head.field("chat_template").as_str() {
            Some(t) => Some(t.to_owned()),
            None => None,
        };
        Ok(
            Store {
                maps,
                index,
                config: head.field("config").copy(),
                tokenizer,
                chat_template,
                container: Container::Packed,
            },
        )
    }

    /// Open a GGUF file with its header, and the config that its metadata amounts
    /// to.
    pub fn open_gguf(buf: &'static [u8], g: &Gguf, config: Json) -> (r: Result<Store, Refusal>)
        requires
            g@.data <= buf@.len(),
        ensures
            match r {
                Ok(s) => {
                    &&& s.valid()
                    &&& gguf_table(buf@, g@) == Ok::<Map<Seq<char>, Rec>, RefusalV>(s.model().index)
                    &&& s.model().maps == seq![buf@]
                    &&& s.model().config == config@
                    &&& s.model().tokenizer == g@.tokenizer()
                    &&& s.model().chat_template == g@.text_under("tokenizer.chat_template"@)
                    &&& s.model().container is Gguf
                },
                Err(e) => gguf_table(buf@, g@) == Err::<Map<Seq<char>, Rec>, RefusalV>(e@),
            },
    {
        assert(buf.len() == buf@.len());
        let mut index = Index::new();
        match add_gguf(&mut index, &g.tensors, g.data, buf.len()) {
            Err(e) => return Err(e),
            Ok(_) => {},
        }
        let maps: Vec<&'static [u8]> = vec![buf];
        proof {
            assert(bytes_of_maps(maps@) =~= seq![buf@]);
            let t = Map::<Seq<char>, Rec>::empty();
            let recs = recorded_gguf(g@.tensors, g@.data, buf@.len() as int, g@.tensors.len())->Ok_0;
            assert forall|n: Seq<char>| #[trigger] extended(t, recs).dom().contains(n) implies extended(t, recs)[n].map
                < maps@.len() by {
                lemma_extended(t, recs, n);
                let k = choose|k: int| 0 <= k < recs.len() && (#[trigger] recs[k]).1 == extended(t, recs)[n];
                law_gguf_tensors_lie_inside(g@.tensors, g@.data, buf@.len() as int, g@.tensors.len(), k);
            }
        }
        Ok(
            Store {
                maps,
                index,
                config,
                tokenizer: g.tokenizer(),
                chat_template: g.chat_template(),
                container: Container::Gguf,
            },
        )
    }
}

impl StoreV {
    /// The bytes of a row range counted from the beginning of a slab, where the tensor has
    /// such rows and the map holds them.
    pub open spec fn span(self, name: Seq<char>, slab: int, start: int, end: int) -> Option<(int, int)> {
        if !self.index.dom().contains(name) {
            None
        } else {
            let r = self.index[name];
            let stride = r.dt.row_size(r.cols as int);
            let from = r.off + (slab * r.rows + start) * stride;
            let to = from + (end - start) * stride;
            if slab * r.rows + end > r.slabs * r.rows || start >= end || to > self.maps[r.map as int].len() {
                None
            } else {
                Some((from, to))
            }
        }
    }

    /// How many rows a tensor has, slabs flattened.
    pub open spec fn height(self, name: Seq<char>) -> int {
        self.index[name].slabs * self.index[name].rows
    }
}

/// What a view of rows `start` to `end` of a slab is.
pub open spec fn is_view(t: Option<QT>, s: StoreV, name: Seq<char>, slab: int, start: int, end: int) -> bool {
    match t {
        None => s.span(name, slab, start, end) is None,
        Some(q) => {
            &&& s.span(name, slab, start, end) matches Some(p)
            &&& q.dt == s.index[name].dt
            &&& q.rows == end - start
            &&& q.cols == s.index[name].cols
            &&& q.data@ == s.maps[s.index[name].map as int].subrange(p.0, p.1)
            &&& q.valid()
        },
    }
}

/// The bytes that a tensor takes, as far as they can be counted.
pub open spec fn counted(rec: Rec) -> int {
    if rec.size() <= usize::MAX {
        rec.size()
    } else {
        usize::MAX as int
    }
}

/// The bytes of the payloads of the first `n` tensors.
pub open spec fn total_size(v: Seq<(Seq<char>, Rec)>, n: nat) -> int
    decreases n,
{
    if n == 0 || n > v.len() {
        0
    } else {
        total_size(v, (n - 1) as nat) + counted(v[n - 1].1)
    }
}

/// What is read of each map to fault in the first `budget` bytes: as much as is left of
/// the budget, map by map, until it is used up.
pub open spec fn warmed(maps: Seq<Seq<u8>>, budget: int) -> Seq<Seq<u8>>
    decreases maps.len(),
{
    if maps.len() == 0 || budget <= 0 {
        Seq::empty()
    } else if maps[0].len() <= budget {
        seq![maps[0]] + warmed(maps.drop_first(), budget - maps[0].len())
    } else {
        seq![maps[0].take(budget)]
    }
}

impl Store {
    /// The tensors in the order of their names.
    pub closed spec fn listed(self) -> Seq<(Seq<char>, Rec)> {
        self.index@
    }

    /// The list holds the tensors of the index, each once, in order.
    pub proof fn lemma_listed(self)
        requires
            self.valid(),
        ensures
            ascending(self.listed()),
            tabled(self.listed()) == self.model().index,
            all_mapped(self.model().index, self.model().maps),
    {
    }

    /// The model's config.
    pub fn config(&self) -> (r: &Json)
        ensures
            r@ == self.model().config,
    {
        &self.config
    }

    /// Whole tensor, with any leading expert dimension flattened into rows.
    pub fn get(&self, name: &str) -> (r: Option<QT>)
        requires
            self.valid(),
        ensures
            self.model().index.dom().contains(name@) && self.model().height(name@) > usize::MAX ==> r is None,
            !(self.model().index.dom().contains(name@) && self.model().height(name@) > usize::MAX) ==> is_view(
                r,
                self.model(),
                name@,
                0,
                0,
                self.model().height(name@),
            ),
    {
        match self.index.get(name) {
            None => None,
            Some(r) => match r.slabs.checked_mul(r.rows) {
                None => None,
                Some(n) => self.view(name, 0, 0, n),
            },
        }
    }

    /// `(slabs, rows, cols)` of a tensor.
    pub fn shape(&self, name: &str) -> (r: Option<(usize, usize, usize)>)
        requires
            self.valid(),
        ensures
            match r {
                Some(p) => self.model().index.dom().contains(name@) && p == (
                    self.model().index[name@].slabs,
                    self.model().index[name@].rows,
                    self.model().index[name@].cols,
                ),
                None => !self.model().index.dom().contains(name@),
            },
    {
        match self.index.get(name) {
            None => None,
            Some(r) => Some((r.slabs, r.rows, r.cols)),
        }
    }

    /// A row range inside one slab, from row `start` to before row `end`: how a
    /// single expert is addressed inside a fused `[experts, 2*inter, hidden]` stack,
    /// at zero copy. Rows that the tensor does not have cannot be viewed, nor rows that
    /// the file does not hold.
    pub fn view(&self, name: &str, slab: usize, start: usize, end: usize) -> (t: Option<QT>)
        requires
            self.valid(),
        ensures
            is_view(t, self.model(), name@, slab as int, start as int, end as int),
    {
        let r: Rec = match self.index.get(name) {
            None => return None,
            Some(r) => r,
        };
        proof {
            lemma_row_size(r.dt, r.cols as int);
            assert(0 <= slab * r.rows <= u64::MAX * u64::MAX && 0 <= r.slabs * r.rows <= u64::MAX * u64::MAX)
                by (nonlinear_arith)
                requires
                    0 <= slab <= u64::MAX,
                    0 <= r.rows <= u64::MAX,
                    0 <= r.slabs <= u64::MAX,
            ;
        }
        let ghost stride = r.dt.row_size(r.cols as int);
        if start >= end || slab as u128 * r.rows as u128 + end as u128 > r.slabs as u128 * r.rows as u128 {
            return None;
        }
        let map: &'static [u8] = self.maps[r.map];
        assert(map.len() == self.model().maps[r.map as int].len());
        let ghost skipped = slab * r.rows + start;
        let ghost n = end - start;
        assert(skipped >= 0) by (nonlinear_arith)
            requires
                skipped == slab * r.rows + start,
                slab >= 0,
                r.rows >= 0,
                start >= 0,
        ;
        assert(skipped * stride >= 0 && n * stride >= 0) by (nonlinear_arith)
            requires
                skipped >= 0,
                n >= 1,
                stride >= 0,
        ;
        if r.off > map.len() {
            return None;
        }
        let room: usize = map.len() - r.off;
        let width: usize = match r.dt.checked_row_bytes(r.cols) {
            Some(w) => w,
            None => {
                assert(skipped * stride >= 0 && n * stride >= stride) by (nonlinear_arith)
                    requires
                        skipped >= 0,
                        n >= 1,
                        stride >= 0,
                ;
                return None;
            },
        };
        if width == 0 {
            assert(skipped * stride == 0 && n * stride == 0) by (nonlinear_arith)
                requires
                    stride == 0,
            ;
            assert(end - start == n && self.model().maps[r.map as int].subrange(r.off as int, r.off as int).len() == 0);
            let data: &'static [u8] = &map[r.off..r.off];
            assert((end - start) * r.dt.row_size(r.cols as int) == 0);
            return Some(QT::new(r.dt, end - start, r.cols, data));
        }
        let base: usize = match slab.checked_mul(r.rows) {
            None => {
                assert(skipped * stride >= skipped && n * stride >= 0) by (nonlinear_arith)
                    requires
                        skipped >= 0,
                        n >= 1,
                        stride >= 1,
                ;
                return None;
            },
            Some(b) => b,
        };
        let last: usize = match base.checked_add(end) {
            None => {
                assert((skipped + n) * stride >= skipped + n && skipped * stride + n * stride == (skipped + n) * stride)
                    by (nonlinear_arith)
                    requires
                        skipped + n >= 0,
                        stride >= 1,
                ;
                return None;
            },
            Some(l) => l,
        };
        assert(last == skipped + n);
        assert(skipped * stride + n * stride == (skipped + n) * stride) by (nonlinear_arith);
        match last.checked_mul(width) {
            None => None,
            Some(stop) => {
                if stop > room {
                    return None;
                }
                assert(0 <= skipped * stride <= (skipped + n) * stride) by (nonlinear_arith)
                    requires
                        skipped >= 0,
                        n >= 1,
                        stride >= 0,
                ;
                let from: usize = (base + start) * width;
                let data: &'static [u8] = &map[r.off + from..r.off + stop];
                Some(QT::new(r.dt, end - start, r.cols, data))
            },
        }
    }

    pub fn has(&self, name: &str) -> (r: bool)
        requires
            self.valid(),
        ensures
            r == self.model().index.dom().contains(name@),
    {
        match self.index.get(name) {
            Some(_) => true,
            None => false,
        }
    }

    /// First tensor that can be read among several candidate names.
    pub fn any(&self, names: &[&str]) -> (r: Option<QT>)
        requires
            self.valid(),
        ensures
            match r {
                None => forall|i: int| 0 <= i < names@.len() ==> !self.readable((#[trigger] names@[i])@),
                Some(q) => exists|i: int|
                    {
                        &&& 0 <= i < names@.len()
                        &&& is_view(r, self.model(), (#[trigger] names@[i])@, 0, 0, self.model().height(names@[i]@))
                        &&& self.readable(names@[i]@)
                        &&& forall|k: int| 0 <= k < i ==> !self.readable((#[trigger] names@[k])@)
                    },
            },
    {
        let mut i: usize = 0;
        while i < names.len()
            invariant
                i <= names@.len(),
                self.valid(),
                forall|k: int| 0 <= k < i ==> !self.readable((#[trigger] names@[k])@),
            decreases names@.len() - i,
        {
            let t: Option<QT> = self.get(names[i]);
            if t.is_some() {
                assert(self.readable(names@[i as int]@));
                return t;
            }
            i += 1;
        }
        None
    }

    /// Whether a whole tensor can be read under a name.
    pub open spec fn readable(self, name: Seq<char>) -> bool {
        self.model().index.dom().contains(name) && self.model().height(name) <= usize::MAX && self.model().span(
            name,
            0,
            0,
            self.model().height(name),
        ) is Some
    }

    /// The names of the tensors, in order.
    pub fn names(&self) -> (r: Vec<String>)
        ensures
            r@.len() == self.listed().len(),
            forall|i: int| 0 <= i < r@.len() ==> (#[trigger] r@[i])@ == self.listed()[i].0,
    {
        let mut out: Vec<String> = Vec::new();
        let mut i: usize = 0;
        while i < self.index.len()
            invariant
                i <= self.index@.len(),
                out@.len() == i,
                forall|k: int| 0 <= k < i ==> (#[trigger] out@[k])@ == self.index@[k].0,
            decreases self.index@.len() - i,
        {
            out.push(self.index.name(i).to_owned());
            i += 1;
        }
        out
    }

    /// The name of tensor `i`.
    pub fn name_at(&self, i: usize) -> (r: &str)
        requires
            i < self.listed().len(),
        ensures
            r@ == self.listed()[i as int].0,
    {
        self.index.name(i)
    }

    /// Where tensor `i` lies, and its shape.
    pub fn rec_at(&self, i: usize) -> (r: Rec)
        requires
            i < self.listed().len(),
        ensures
            r == self.listed()[i as int].1,
    {
        self.index.rec(i)
    }

    pub fn len(&self) -> (r: usize)
        ensures
            r == self.listed().len(),
    {
        self.index.len()
    }

    pub fn is_empty(&self) -> (r: bool)
        ensures
            r == (self.listed().len() == 0),
    {
        self.index.len() == 0
    }

    /// Total weight bytes as stored on disk.
    pub fn bytes(&self) -> (r: u64)
        requires
            self.valid(),
        ensures
            r == (if total_size(self.listed(), self.listed().len()) <= u64::MAX {
                total_size(self.listed(), self.listed().len())
            } else {
                u64::MAX as int
            }),
    {
        let mut sum: u64 = 0;
        let mut i: usize = 0;
        while i < self.index.len()
            invariant
                i <= self.index@.len(),
                self.valid(),
                sum == (if total_size(self.index@, i as nat) <= u64::MAX {
                    total_size(self.index@, i as nat)
                } else {
                    u64::MAX as int
                }),
                total_size(self.index@, i as nat) >= 0,
            decreases self.index@.len() - i,
        {
            let r: Rec = self.index.rec(i);
            proof {
                lemma_size(r);
            }
            let n: usize = match size_within(&r, usize::MAX) {
                Some(n) => n,
                None => usize::MAX,
            };
            sum = sum.saturating_add(n as u64);
            i += 1;
        }
        sum
    }

    /// What to read of each map, so that the first token does not pay for page-ins one
    /// at a time.
    pub fn warm(&self, budget: u64) -> (r: Vec<&'static [u8]>)
        ensures
            bytes_of_maps(r@) == warmed(self.model().maps, budget as int),
    {
        let mut out: Vec<&'static [u8]> = Vec::new();
        let mut left: u64 = budget;
        let mut i: usize = 0;
        let ghost maps = bytes_of_maps(self.maps@);
        let ghost all = warmed(maps, budget as int);
        assert(maps.skip(0) =~= maps);
        assert(bytes_of_maps(out@) + all =~= all);
        while i < self.maps.len() && left > 0
            invariant
                i <= self.maps@.len(),
                maps == bytes_of_maps(self.maps@),
                all == warmed(self.model().maps, budget as int),
                all == bytes_of_maps(out@) + warmed(maps.skip(i as int), left as int),
            decreases self.maps@.len() - i,
        {
            let m: &'static [u8] = self.maps[i];
            let ghost before = bytes_of_maps(out@);
            let ghost rest = maps.skip(i as int);
            assert(rest[0] == m@);
            assert(rest.drop_first() =~= maps.skip(i + 1));
            assert(m.len() == m@.len());
            if m.len() as u64 > left {
                let n: usize = left as usize;
                let part: &'static [u8] = &m[0..n];
                out.push(part);
                assert(part@ =~= m@.take(n as int));
                assert(bytes_of_maps(out@) =~= before.push(part@));
                assert(bytes_of_maps(out@) =~= all);
                return out;
            }
            out.push(m);
            assert(bytes_of_maps(out@) =~= before.push(m@));
            left = left - m.len() as u64;
            i += 1;
            assert(bytes_of_maps(out@) + warmed(maps.skip(i as int), left as int) =~= all);
        }
        assert(bytes_of_maps(out@) =~= all);
        out
    }
}

/// A whole tensor is read as its own payload: where it has rows, their number fits, and it
/// lies inside its file, it can be read, and what is read is exactly its bytes.
pub proof fn law_whole_tensor_is_its_payload(s: Store, name: Seq<char>)
    requires
        s.valid(),
        s.model().index.dom().contains(name),
        0 < s.model().height(name) <= usize::MAX,
        inside(s.model().index[name], s.model().maps),
    ensures
        s.readable(name),
        s.model().span(name, 0, 0, s.model().height(name)) == Some(
            (s.model().index[name].off as int, s.model().index[name].off + s.model().index[name].size()),
        ),
{
    s.lemma_listed();
    let r = s.model().index[name];
    let h = s.model().height(name);
    let stride = r.dt.row_size(r.cols as int);
    assert((0 * r.rows + 0) * stride == 0) by (nonlinear_arith);
    assert((h - 0) * stride == r.slabs * r.rows * stride);
}

/// What a view shows lies inside the map, for every slab and row range.
pub proof fn law_views_lie_inside(s: Store, name: Seq<char>, slab: int, start: int, end: int)
    requires
        s.valid(),
        0 <= slab,
        0 <= start,
    ensures
        s.model().span(name, slab, start, end) matches Some(p) ==> s.model().index[name].map < s.model().maps.len() && 0 <= p.0 <= p.1
            <= s.model().maps[s.model().index[name].map as int].len(),
{
    s.lemma_listed();
    if s.model().span(name, slab, start, end) is Some {
        let r = s.model().index[name];
        let stride = r.dt.row_size(r.cols as int);
        lemma_row_size(r.dt, r.cols as int);
        let skipped = slab * r.rows + start;
        assert(skipped * stride >= 0 && (end - start) * stride >= 0) by (nonlinear_arith)
            requires
                skipped == slab * r.rows + start,
                slab >= 0,
                r.rows >= 0,
                start >= 0,
                end > start,
                stride >= 0,
        ;
    }
}

/// The experts of a fused stack do not overlap: the rows of a slab end where those
/// of the next begin, or before.
pub proof fn law_slabs_do_not_overlap(s: Store, name: Seq<char>, slab: int, start: int, end: int)
    requires
        s.valid(),
        0 <= slab,
        0 <= start < end,
        s.model().index.dom().contains(name),
        end <= s.model().index[name].rows,
    ensures
        s.model().span(name, slab, start, end) matches Some(p) ==> s.model().span(name, slab + 1, 0, end) matches Some(q) ==> p.1
            <= q.0,
{
    let r = s.model().index[name];
    let stride = r.dt.row_size(r.cols as int);
    lemma_row_size(r.dt, r.cols as int);
    let a = slab * r.rows;
    assert((slab + 1) * r.rows == a + r.rows) by (nonlinear_arith)
        requires
            a == slab * r.rows,
    ;
    assert((a + start) * stride + (end - start) * stride <= (a + r.rows) * stride) by (nonlinear_arith)
        requires
            end <= r.rows,
            stride >= 0,
    ;
}

/// The first of the templates from `i` on that is called `default`.
pub open spec fn default_from(v: Seq<JsonV>, i: int) -> Option<JsonV>
    decreases v.len() - i,
{
    if i < 0 || i >= v.len() {
        None
    } else if v[i].field("name"@).as_str() == Some("default"@) {
        Some(v[i])
    } else {
        default_from(v, i + 1)
    }
}

/// The chat template of a `tokenizer_config.json`: a text, or one of a list of named
/// ones. The one called `default` is the chat one, or else the first.
pub open spec fn template_in(cfg: JsonV) -> Option<Seq<char>> {
    match cfg.field("chat_template"@) {
        JsonV::Str(s) => Some(s),
        JsonV::Arr(v) => match default_from(v, 0) {
            Some(t) => t.field("template"@).as_str(),
            None => if v.len() > 0 {
                v[0].field("template"@).as_str()
            } else {
                None
            },
        },
        _ => None,
    }
}

/// The chat template beside a checkpoint: a file of its own where it is not blank,
/// or else what the tokenizer's config says.
pub open spec fn template_beside(jinja: Option<Seq<char>>, cfg: Option<JsonV>) -> Option<Seq<char>> {
    if jinja is Some && trimmed(jinja->0).len() > 0 {
        jinja
    } else {
        match cfg {
            Some(c) => template_in(c),
            None => None,
        }
    }
}

fn named_template(v: &Json) -> (r: Option<String>)
    requires
        v@ is Arr,
    ensures
        text_of(r) == (match default_from(elements(v@), 0) {
            Some(t) => t.field("template"@).as_str(),
            None => if elements(v@).len() > 0 {
                elements(v@)[0].field("template"@).as_str()
            } else {
                None
            },
        }),
{
    let n: usize = v.count();
    let ghost e = elements(v@);
    let mut i: usize = 0;
    while i < n
        invariant
            i <= n,
            n == e.len(),
            e == elements(v@),
            default_from(e, 0) == default_from(e, i as int),
        decreases n - i,
    {
        let t: &Json = v.item(i);
        if t.field("name").is_str("default") {
            return match t.field("template").as_str() {
                Some(s) => Some(s.to_owned()),
                None => None,
            };
        }
        i += 1;
    }
    if n > 0 {
        match v.item(0).field("template").as_str() {
            Some(s) => Some(s.to_owned()),
            None => None,
        }
    } else {
        None
    }
}

/// Find a chat template among what stands beside a checkpoint.
///
/// Two conventions: a `chat_template` key in `tokenizer_config.json`, and, the newer
/// one, a `chat_template.jinja` file of its own.
pub fn chat_template_in(jinja: Option<String>, cfg: Option<Json>) -> (r: Option<String>)
    ensures
        text_of(r) == template_beside(text_of(jinja), json_of(cfg)),
{
    if let Some(s) = jinja {
        if !trim(s.as_str()).as_str().is_empty() {
            return Some(s);
        }
    }
    let cfg: Json = match cfg {
        Some(c) => c,
        None => return None,
    };
    let v: &Json = cfg.field("chat_template");
    match v {
        Json::Str(s) => Some(s.as_str().to_owned()),
        Json::Arr(_) => named_template(v),
        _ => None,
    }
}

/// A byte range rounded out to page boundaries, as the memory syscalls require:
/// where it starts, and how long it is then. Nothing of an empty range.
pub fn pages(start: usize, len: usize, page: usize) -> (r: Option<(usize, usize)>)
    requires
        page > 0,
        start + len <= usize::MAX,
    ensures
        len == 0 <==> r is None,
        r matches Some(p) ==> p.0 % page == 0 && p.0 <= start < p.0 + page && p.0 + p.1 == start + len,
{
    if len == 0 {
        return None;
    }
    let over: usize = start % page;
    assert((start - over) % page as int == 0 && 0 <= over <= start) by (nonlinear_arith)
        requires
            page > 0,
            start >= 0,
            over == start as int % page as int,
    ;
    Some((start - over, len + over))
}

} // verus!
