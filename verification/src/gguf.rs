//! Reading GGUF, the container llama.cpp quantises into.
//!
//! The format suits this engine exactly: a header of metadata and tensor offsets,
//! then tensor data laid out contiguously, which is a memory map and an offset
//! calculation.
//!
//! Three translations are needed. Tensor *names* differ, so they are mapped onto
//! the Hugging Face ones the engine detects architecture from. Tensor *dimensions*
//! are stored fastest-varying-first, so they reverse. And the *config* lives in
//! typed metadata keys rather than a `config.json`, so one is synthesised, along
//! with a `tokenizer.json`, since GGUF carries its vocabulary too.
//!
//! Floating-point values are kept as their bits.

use vstd::hash_map::StringHashMap;
use vstd::prelude::*;
use vstd::string::*;
use crate::float::{double_to_int, f32_to_f64, f64_to_int, single_to_double, Real};
use crate::json::{add_item, array, entry_views, item_views, number, object, put, string, Json, JsonV, NumberV};
use crate::quant::{le16, le32, read16, read32, Dt};
use crate::text::{at, chars_of, decimal, decimal_of, find, first_at, is_at, join, join3, lemma_first_at, parse_unsigned, same, substring, unsigned_of};
use crate::tokenizer::{lossy, text_lossy};

verus! {

/// A metadata value, in the handful of shapes that matter here.
#[derive(Debug)]
pub enum Meta {
    Int(i64),
    /// The bits of a double.
    Float(u64),
    Bool(bool),
    Str(String),
    Ints(Vec<i64>),
    Floats(Vec<u64>),
    Strs(Vec<String>),
}

/// What a [`Meta`] holds.
pub enum MetaV {
    Int(i64),
    Float(u64),
    Bool(bool),
    Str(Seq<char>),
    Ints(Seq<i64>),
    Floats(Seq<u64>),
    Strs(Seq<Seq<char>>),
}

impl View for Meta {
    type V = MetaV;

    open spec fn view(&self) -> MetaV {
        match *self {
            Meta::Int(v) => MetaV::Int(v),
            Meta::Float(v) => MetaV::Float(v),
            Meta::Bool(v) => MetaV::Bool(v),
            Meta::Str(s) => MetaV::Str(s@),
            Meta::Ints(v) => MetaV::Ints(v@),
            Meta::Floats(v) => MetaV::Floats(v@),
            Meta::Strs(v) => MetaV::Strs(texts(v@)),
        }
    }
}

/// What strings hold.
pub open spec fn texts(v: Seq<String>) -> Seq<Seq<char>> {
    Seq::new(v.len(), |i: int| v[i]@)
}

impl MetaV {
    /// The value as a whole number, where it is a number or a flag.
    pub open spec fn as_i64(self) -> Option<i64> {
        match self {
            MetaV::Int(v) => Some(v),
            MetaV::Float(v) => Some(double_to_int(v) as i64),
            MetaV::Bool(v) => Some(
                if v {
                    1
                } else {
                    0
                },
            ),
            _ => None,
        }
    }

    pub open spec fn as_str(self) -> Option<Seq<char>> {
        match self {
            MetaV::Str(s) => Some(s),
            _ => None,
        }
    }

    /// The value as a flag: a flag as it stands, a number by whether it is zero.
    pub open spec fn as_flag(self) -> Option<bool> {
        match self {
            MetaV::Bool(b) => Some(b),
            _ => match self.as_i64() {
                Some(i) => Some(i != 0),
                None => None,
            },
        }
    }
}

impl Meta {
    pub fn as_i64(&self) -> (r: Option<i64>)
        ensures
            r == self@.as_i64(),
    {
        match self {
            Meta::Int(v) => Some(*v),
            Meta::Float(v) => Some(f64_to_int(*v)),
            Meta::Bool(v) => Some(
                if *v {
                    1
                } else {
                    0
                },
            ),
            _ => None,
        }
    }

    pub fn as_str(&self) -> (r: Option<&str>)
        ensures
            match r {
                Some(s) => self@.as_str() == Some(s@),
                None => self@.as_str() is None,
            },
    {
        match self {
            Meta::Str(s) => Some(s.as_str()),
            _ => None,
        }
    }

    pub fn as_flag(&self) -> (r: Option<bool>)
        ensures
            r == self@.as_flag(),
    {
        match self {
            Meta::Bool(b) => Some(*b),
            _ => match self.as_i64() {
                Some(i) => Some(i != 0),
                None => None,
            },
        }
    }
}

/// One tensor's shape and where its bytes start, relative to the data section.
#[derive(Debug)]
pub struct Info {
    pub name: String,
    /// Logical shape, outermost first.
    pub shape: Vec<usize>,
    pub dt: Dt,
    pub offset: usize,
}

/// What an [`Info`] holds.
pub struct InfoV {
    pub name: Seq<char>,
    pub shape: Seq<usize>,
    pub dt: Dt,
    pub offset: usize,
}

impl View for Info {
    type V = InfoV;

    open spec fn view(&self) -> InfoV {
        InfoV { name: self.name@, shape: self.shape@, dt: self.dt, offset: self.offset }
    }
}

/// Why a file is refused.
#[derive(Debug)]
pub enum Fault {
    /// The magic is missing.
    NotGguf,
    Version(u32),
    /// The header counts exceed the file size.
    Counts,
    /// The header ends at this byte.
    Truncated(usize),
    /// A string claims so many bytes in a file of so many.
    StringLength(usize, usize),
    /// An array claims so many elements in a file of so many bytes.
    ArrayLength(usize, usize),
    /// An array of arrays.
    Nested,
    /// An unknown metadata type.
    Kind(u32),
    /// A tensor with none or too many dimensions.
    Dims(String, usize),
    /// A ggml type that cannot be read.
    Type(u32),
    /// The data section begins past the end of the file.
    Overrun,
}

/// What a [`Fault`] holds.
pub enum FaultV {
    NotGguf,
    Version(u32),
    Counts,
    Truncated(usize),
    StringLength(usize, usize),
    ArrayLength(usize, usize),
    Nested,
    Kind(u32),
    Dims(Seq<char>, usize),
    Type(u32),
    Overrun,
}

impl View for Fault {
    type V = FaultV;

    open spec fn view(&self) -> FaultV {
        match *self {
            Fault::NotGguf => FaultV::NotGguf,
            Fault::Version(v) => FaultV::Version(v),
            Fault::Counts => FaultV::Counts,
            Fault::Truncated(a) => FaultV::Truncated(a),
            Fault::StringLength(n, m) => FaultV::StringLength(n, m),
            Fault::ArrayLength(n, m) => FaultV::ArrayLength(n, m),
            Fault::Nested => FaultV::Nested,
            Fault::Kind(k) => FaultV::Kind(k),
            Fault::Dims(s, n) => FaultV::Dims(s@, n),
            Fault::Type(t) => FaultV::Type(t),
            Fault::Overrun => FaultV::Overrun,
        }
    }
}

/// Eight bytes as a number, low byte first.
pub open spec fn le64(s: Seq<u8>, i: int) -> u64 {
    (le32(s, i) + 4294967296 * le32(s, i + 4)) as u64
}

/// `v` of `span` values, read as a signed number of as many.
pub open spec fn wrapped(v: int, span: int) -> int {
    if v < span / 2 {
        v
    } else {
        v - span
    }
}

/// The end of `n` bytes from `i` on, where the file has them.
pub open spec fn ends(b: Seq<u8>, i: int, n: int) -> Result<int, FaultV> {
    if i + n <= b.len() {
        Ok(i + n)
    } else {
        Err(FaultV::Truncated(i as usize))
    }
}

pub open spec fn u32_at(b: Seq<u8>, i: int) -> Result<(u32, int), FaultV> {
    match ends(b, i, 4) {
        Ok(j) => Ok((le32(b, i), j)),
        Err(e) => Err(e),
    }
}

pub open spec fn u64_at(b: Seq<u8>, i: int) -> Result<(u64, int), FaultV> {
    match ends(b, i, 8) {
        Ok(j) => Ok((le64(b, i), j)),
        Err(e) => Err(e),
    }
}

/// A string: its length in bytes, then the bytes. A length beyond the whole file
/// is refused as such.
pub open spec fn string_at(b: Seq<u8>, i: int) -> Result<(Seq<char>, int), FaultV> {
    match u64_at(b, i) {
        Err(e) => Err(e),
        Ok((n, j)) => if n as usize > b.len() {
            Err(FaultV::StringLength(n as usize, b.len() as usize))
        } else {
            match ends(b, j, n as usize as int) {
                Ok(k) => Ok((lossy(b.subrange(j, k)), k)),
                Err(e) => Err(e),
            }
        },
    }
}

/// How many bytes a number or flag of a kind takes: none where the kind is none.
pub open spec fn kind_width(kind: u32) -> int {
    if kind == 0 || kind == 1 || kind == 7 {
        1
    } else if kind == 2 || kind == 3 {
        2
    } else if kind == 4 || kind == 5 || kind == 6 {
        4
    } else if kind == 10 || kind == 11 || kind == 12 {
        8
    } else {
        0
    }
}

/// The number or flag of a kind whose bytes stand at `i`.
pub open spec fn number_at(b: Seq<u8>, i: int, kind: u32) -> MetaV {
    if kind == 0 {
        MetaV::Int(b[i] as i64)
    } else if kind == 1 {
        MetaV::Int(wrapped(b[i] as int, 256) as i64)
    } else if kind == 2 {
        MetaV::Int(le16(b, i) as i64)
    } else if kind == 3 {
        MetaV::Int(wrapped(le16(b, i) as int, 65536) as i64)
    } else if kind == 4 {
        MetaV::Int(le32(b, i) as i64)
    } else if kind == 5 {
        MetaV::Int(wrapped(le32(b, i) as int, 4294967296) as i64)
    } else if kind == 6 {
        MetaV::Float(single_to_double(le32(b, i)))
    } else if kind == 7 {
        MetaV::Bool(b[i] != 0)
    } else if kind == 12 {
        MetaV::Float(le64(b, i))
    } else {
        MetaV::Int(wrapped(le64(b, i) as int, 18446744073709551616) as i64)
    }
}

/// A value of any kind but an array.
pub open spec fn scalar_at(b: Seq<u8>, i: int, kind: u32) -> Result<(MetaV, int), FaultV> {
    if kind == 8 {
        match string_at(b, i) {
            Ok((s, j)) => Ok((MetaV::Str(s), j)),
            Err(e) => Err(e),
        }
    } else if kind == 9 {
        Err(FaultV::Nested)
    } else if kind_width(kind) == 0 {
        Err(FaultV::Kind(kind))
    } else {
        match ends(b, i, kind_width(kind)) {
            Ok(j) => Ok((number_at(b, i, kind), j)),
            Err(e) => Err(e),
        }
    }
}

/// The first `n` values of a kind from `i` on.
pub open spec fn scalars_at(b: Seq<u8>, i: int, kind: u32, n: nat) -> Result<(Seq<MetaV>, int), FaultV>
    decreases n,
{
    if n == 0 {
        Ok((Seq::empty(), i))
    } else {
        match scalars_at(b, i, kind, (n - 1) as nat) {
            Err(e) => Err(e),
            Ok((v, j)) => match scalar_at(b, j, kind) {
                Err(e) => Err(e),
                Ok((m, k)) => Ok((v.push(m), k)),
            },
        }
    }
}

/// Values of one kind, gathered into a list of their shape. An empty list counts
/// as one of whole numbers, and so does one of flags.
pub open spec fn gathered(v: Seq<MetaV>, kind: u32) -> MetaV {
    if v.len() == 0 {
        MetaV::Ints(Seq::empty())
    } else if kind == 8 {
        MetaV::Strs(Seq::new(v.len(), |i: int| v[i]->Str_0))
    } else if kind == 6 || kind == 12 {
        MetaV::Floats(Seq::new(v.len(), |i: int| v[i]->Float_0))
    } else {
        MetaV::Ints(Seq::new(v.len(), |i: int| v[i].as_i64()->0))
    }
}

/// A value of any kind.
pub open spec fn value_at(b: Seq<u8>, i: int, kind: u32) -> Result<(MetaV, int), FaultV> {
    if kind != 9 {
        scalar_at(b, i, kind)
    } else {
        match u32_at(b, i) {
            Err(e) => Err(e),
            Ok((elem, j)) => match u64_at(b, j) {
                Err(e) => Err(e),
                Ok((n, k)) => if n as usize > b.len() {
                    Err(FaultV::ArrayLength(n as usize, b.len() as usize))
                } else {
                    match scalars_at(b, k, elem, n as usize as nat) {
                        Err(e) => Err(e),
                        Ok((v, end)) => Ok((gathered(v, elem), end)),
                    }
                },
            },
        }
    }
}

fn take(b: &[u8], i: usize, n: usize) -> (r: Result<usize, Fault>)
    requires
        i <= b@.len(),
    ensures
        match r {
            Ok(j) => ends(b@, i as int, n as int) == Ok::<int, FaultV>(j as int) && i <= j <= b@.len(),
            Err(e) => ends(b@, i as int, n as int) == Err::<int, FaultV>(e@),
        },
{
    if n <= b.len() - i {
        Ok(i + n)
    } else {
        Err(Fault::Truncated(i))
    }
}

fn read_u32(b: &[u8], i: usize) -> (r: Result<(u32, usize), Fault>)
    requires
        i <= b@.len(),
    ensures
        match r {
            Ok(p) => u32_at(b@, i as int) == Ok::<(u32, int), FaultV>((p.0, p.1 as int)) && i <= p.1 <= b@.len(),
            Err(e) => u32_at(b@, i as int) == Err::<(u32, int), FaultV>(e@),
        },
{
    match take(b, i, 4) {
        Ok(j) => Ok((read32(b, i), j)),
        Err(e) => Err(e),
    }
}

pub(crate) fn read64(b: &[u8], i: usize) -> (r: u64)
    requires
        i + 8 <= b@.len(),
    ensures
        r == le64(b@, i as int),
{
    assert(b.len() == b@.len());
    read32(b, i) as u64 + 4294967296 * read32(b, i + 4) as u64
}

fn read_u64(b: &[u8], i: usize) -> (r: Result<(u64, usize), Fault>)
    requires
        i <= b@.len(),
    ensures
        match r {
            Ok(p) => u64_at(b@, i as int) == Ok::<(u64, int), FaultV>((p.0, p.1 as int)) && i <= p.1 <= b@.len(),
            Err(e) => u64_at(b@, i as int) == Err::<(u64, int), FaultV>(e@),
        },
{
    match take(b, i, 8) {
        Ok(j) => Ok((read64(b, i), j)),
        Err(e) => Err(e),
    }
}

fn read_string(b: &[u8], i: usize) -> (r: Result<(String, usize), Fault>)
    requires
        i <= b@.len(),
    ensures
        match r {
            Ok(p) => string_at(b@, i as int) == Ok::<(Seq<char>, int), FaultV>((p.0@, p.1 as int)) && i <= p.1
                <= b@.len(),
            Err(e) => string_at(b@, i as int) == Err::<(Seq<char>, int), FaultV>(e@),
        },
{
    match read_u64(b, i) {
        Err(e) => Err(e),
        Ok((wide, j)) => {
            let n: usize = #[verifier::truncate]
            (wide as usize);
            // A length field is the one place a corrupt file can ask for the world.
            if n > b.len() {
                return Err(Fault::StringLength(n, b.len()));
            }
            match take(b, j, n) {
                Err(e) => Err(e),
                Ok(k) => Ok((text_lossy(&b[j..k]), k)),
            }
        },
    }
}

fn signed64(v: u64) -> (r: i64)
    ensures
        r == wrapped(v as int, 18446744073709551616),
{
    if v < 9223372036854775808 {
        v as i64
    } else {
        (v - 9223372036854775808) as i64 + i64::MIN
    }
}

fn read_scalar(b: &[u8], i: usize, kind: u32) -> (r: Result<(Meta, usize), Fault>)
    requires
        i <= b@.len(),
    ensures
        match r {
            Ok(p) => scalar_at(b@, i as int, kind) == Ok::<(MetaV, int), FaultV>((p.0@, p.1 as int)) && i <= p.1
                <= b@.len(),
            Err(e) => scalar_at(b@, i as int, kind) == Err::<(MetaV, int), FaultV>(e@),
        },
{
    if kind == 8 {
        return match read_string(b, i) {
            Ok((s, j)) => Ok((Meta::Str(s), j)),
            Err(e) => Err(e),
        };
    }
    if kind == 9 {
        return Err(Fault::Nested);
    }
    let width: usize = if kind == 0 || kind == 1 || kind == 7 {
        1
    } else if kind == 2 || kind == 3 {
        2
    } else if kind == 4 || kind == 5 || kind == 6 {
        4
    } else if kind == 10 || kind == 11 || kind == 12 {
        8
    } else {
        0
    };
    if width == 0 {
        return Err(Fault::Kind(kind));
    }
    match take(b, i, width) {
        Err(e) => Err(e),
        Ok(j) => {
            let m: Meta = if kind == 0 {
                Meta::Int(b[i] as i64)
            } else if kind == 1 {
                let v: i64 = b[i] as i64;
                Meta::Int(
                    if v < 128 {
                        v
                    } else {
                        v - 256
                    },
                )
            } else if kind == 2 {
                Meta::Int(read16(b, i) as i64)
            } else if kind == 3 {
                let v: i64 = read16(b, i) as i64;
                Meta::Int(
                    if v < 32768 {
                        v
                    } else {
                        v - 65536
                    },
                )
            } else if kind == 4 {
                Meta::Int(read32(b, i) as i64)
            } else if kind == 5 {
                let v: i64 = read32(b, i) as i64;
                Meta::Int(
                    if v < 2147483648 {
                        v
                    } else {
                        v - 4294967296
                    },
                )
            } else if kind == 6 {
                Meta::Float(f32_to_f64(read32(b, i)))
            } else if kind == 7 {
                Meta::Bool(b[i] != 0)
            } else if kind == 12 {
                Meta::Float(read64(b, i))
            } else {
                Meta::Int(signed64(read64(b, i)))
            };
            Ok((m, j))
        },
    }
}

/// Once a value cannot be read, no longer list can.
proof fn lemma_stuck(b: Seq<u8>, i: int, kind: u32, m: nat, n: nat)
    requires
        m <= n,
        scalars_at(b, i, kind, m) is Err,
    ensures
        scalars_at(b, i, kind, n) == scalars_at(b, i, kind, m),
    decreases n,
{
    if m < n {
        lemma_stuck(b, i, kind, m, (n - 1) as nat);
    }
}

#[verifier::loop_isolation(false)]
fn read_list(b: &[u8], from: usize, elem: u32, n: usize) -> (r: Result<(Meta, usize), Fault>)
    requires
        from <= b@.len(),
    ensures
        match r {
            Ok(p) => {
                &&& scalars_at(b@, from as int, elem, n as nat) matches Ok(q)
                &&& p.0@ == gathered(q.0, elem)
                &&& p.1 == q.1
                &&& from <= p.1 <= b@.len()
            },
            Err(e) => scalars_at(b@, from as int, elem, n as nat) == Err::<(Seq<MetaV>, int), FaultV>(e@),
        },
{
    let mut ints: Vec<i64> = Vec::new();
    let mut floats: Vec<u64> = Vec::new();
    let mut strs: Vec<String> = Vec::new();
    let mut i: usize = from;
    let mut c: usize = 0;
    let ghost mut v: Seq<MetaV> = Seq::empty();
    while c < n
        invariant
            c <= n,
            from <= i <= b@.len(),
            scalars_at(b@, from as int, elem, c as nat) == Ok::<(Seq<MetaV>, int), FaultV>((v, i as int)),
            v.len() == c,
            elem == 8 ==> strs@.len() == c && forall|k: int| 0 <= k < c ==> v[k] == MetaV::Str(strs@[k]@),
            elem != 8 ==> strs@.len() == 0,
            (elem == 6 || elem == 12) ==> floats@.len() == c && forall|k: int|
                0 <= k < c ==> v[k] == MetaV::Float(floats@[k]),
            !(elem == 6 || elem == 12) ==> floats@.len() == 0,
            !(elem == 6 || elem == 12 || elem == 8) ==> ints@.len() == c && forall|k: int|
                0 <= k < c ==> (#[trigger] v[k]).as_i64() == Some(ints@[k]),
            (elem == 6 || elem == 12 || elem == 8) ==> ints@.len() == 0,
        decreases n - c,
    {
        match read_scalar(b, i, elem) {
            Err(e) => {
                proof {
                    assert(scalars_at(b@, from as int, elem, (c + 1) as nat) == Err::<(Seq<MetaV>, int), FaultV>(e@));
                    lemma_stuck(b@, from as int, elem, (c + 1) as nat, n as nat);
                }
                return Err(e);
            },
            Ok((m, j)) => {
                let ghost mv = m@;
                match m {
                    Meta::Str(s) => strs.push(s),
                    Meta::Float(f) => floats.push(f),
                    other => ints.push(
                        match other.as_i64() {
                            Some(x) => x,
                            None => 0,
                        },
                    ),
                }
                proof {
                    v = v.push(mv);
                }
                i = j;
                c += 1;
            },
        }
    }
    if strs.len() > 0 {
        assert(texts(strs@) =~= Seq::new(v.len(), |k: int| v[k]->Str_0));
        Ok((Meta::Strs(strs), i))
    } else if floats.len() > 0 {
        assert(floats@ =~= Seq::new(v.len(), |k: int| v[k]->Float_0));
        Ok((Meta::Floats(floats), i))
    } else {
        if c > 0 {
            assert(ints@ =~= Seq::new(v.len(), |k: int| v[k].as_i64()->0));
        } else {
            assert(ints@ =~= Seq::empty());
        }
        Ok((Meta::Ints(ints), i))
    }
}

fn read_value(b: &[u8], i: usize, kind: u32) -> (r: Result<(Meta, usize), Fault>)
    requires
        i <= b@.len(),
    ensures
        match r {
            Ok(p) => value_at(b@, i as int, kind) == Ok::<(MetaV, int), FaultV>((p.0@, p.1 as int)) && i <= p.1
                <= b@.len(),
            Err(e) => value_at(b@, i as int, kind) == Err::<(MetaV, int), FaultV>(e@),
        },
{
    if kind != 9 {
        return read_scalar(b, i, kind);
    }
    match read_u32(b, i) {
        Err(e) => Err(e),
        Ok((elem, j)) => match read_u64(b, j) {
            Err(e) => Err(e),
            Ok((wide, k)) => {
                let n: usize = #[verifier::truncate]
                (wide as usize);
                // Every element is at least one byte, so this bounds the count.
                if n > b.len() {
                    return Err(Fault::ArrayLength(n, b.len()));
                }
                read_list(b, k, elem, n)
            },
        },
    }
}

/// The storage format of a ggml type number, where the engine can read it.
pub open spec fn format_of(t: u32) -> Option<Dt> {
    match t {
        0 => Some(Dt::F32),
        1 => Some(Dt::F16),
        2 => Some(Dt::Q4),
        6 => Some(Dt::Q5),
        8 => Some(Dt::Q8),
        12 => Some(Dt::Q4K),
        14 => Some(Dt::Q6K),
        30 => Some(Dt::BF16),
        _ => None,
    }
}

/// Map a ggml type number onto a storage format the engine can read.
fn dtype(t: u32) -> (r: Result<Dt, Fault>)
    ensures
        match r {
            Ok(d) => format_of(t) == Some(d),
            Err(e) => format_of(t) is None && e@ == FaultV::Type(t),
        },
{
    match t {
        0 => Ok(Dt::F32),
        1 => Ok(Dt::F16),
        // Q4_0, Q5_0 and Q8_0 are byte-identical to the engine's own formats.
        2 => Ok(Dt::Q4),
        6 => Ok(Dt::Q5),
        8 => Ok(Dt::Q8),
        12 => Ok(Dt::Q4K),
        14 => Ok(Dt::Q6K),
        30 => Ok(Dt::BF16),
        _ => Err(Fault::Type(t)),
    }
}

/// A metadata entry: its key, its kind and its value.
pub open spec fn entry_at(b: Seq<u8>, i: int) -> Result<((Seq<char>, MetaV), int), FaultV> {
    match string_at(b, i) {
        Err(e) => Err(e),
        Ok((key, j)) => match u32_at(b, j) {
            Err(e) => Err(e),
            Ok((kind, k)) => match value_at(b, k, kind) {
                Err(e) => Err(e),
                Ok((v, end)) => Ok(((key, v), end)),
            },
        },
    }
}

/// The first `n` metadata entries from `i` on.
pub open spec fn entries_at(b: Seq<u8>, i: int, n: nat) -> Result<(Seq<(Seq<char>, MetaV)>, int), FaultV>
    decreases n,
{
    if n == 0 {
        Ok((Seq::empty(), i))
    } else {
        match entries_at(b, i, (n - 1) as nat) {
            Err(e) => Err(e),
            Ok((v, j)) => match entry_at(b, j) {
                Err(e) => Err(e),
                Ok((m, k)) => Ok((v.push(m), k)),
            },
        }
    }
}

/// The first `n` dimensions from `i` on, in the order of the file.
pub open spec fn dims_at(b: Seq<u8>, i: int, n: nat) -> Result<(Seq<usize>, int), FaultV>
    decreases n,
{
    if n == 0 {
        Ok((Seq::empty(), i))
    } else {
        match dims_at(b, i, (n - 1) as nat) {
            Err(e) => Err(e),
            Ok((v, j)) => match u64_at(b, j) {
                Err(e) => Err(e),
                Ok((d, k)) => Ok((v.push(d as usize), k)),
            },
        }
    }
}

/// What follows a tensor's dimensions: its type and its offset.
pub open spec fn placed_at(b: Seq<u8>, i: int) -> Result<((Dt, usize), int), FaultV> {
    match u32_at(b, i) {
        Err(e) => Err(e),
        Ok((t, j)) => match format_of(t) {
            None => Err(FaultV::Type(t)),
            Some(dt) => match u64_at(b, j) {
                Err(e) => Err(e),
                Ok((offset, k)) => Ok(((dt, offset as usize), k)),
            },
        },
    }
}

/// A tensor: its name, its dimensions, its type and its offset. GGUF stores the
/// fastest-varying dimension first; the engine thinks outermost-first.
pub open spec fn tensor_at(b: Seq<u8>, i: int) -> Result<(InfoV, int), FaultV> {
    match string_at(b, i) {
        Err(e) => Err(e),
        Ok((name, j)) => match u32_at(b, j) {
            Err(e) => Err(e),
            Ok((dims, k)) => if dims == 0 || dims > 4 {
                Err(FaultV::Dims(name, dims as usize))
            } else {
                match dims_at(b, k, dims as nat) {
                    Err(e) => Err(e),
                    Ok((shape, l)) => match placed_at(b, l) {
                        Err(e) => Err(e),
                        Ok((p, end)) => Ok(
                            (InfoV { name, shape: shape.reverse(), dt: p.0, offset: p.1 }, end),
                        ),
                    },
                }
            },
        },
    }
}

/// The first `n` tensors from `i` on.
pub open spec fn tensors_at(b: Seq<u8>, i: int, n: nat) -> Result<(Seq<InfoV>, int), FaultV>
    decreases n,
{
    if n == 0 {
        Ok((Seq::empty(), i))
    } else {
        match tensors_at(b, i, (n - 1) as nat) {
            Err(e) => Err(e),
            Ok((v, j)) => match tensor_at(b, j) {
                Err(e) => Err(e),
                Ok((m, k)) => Ok((v.push(m), k)),
            },
        }
    }
}

fn read_entry(b: &[u8], i: usize) -> (r: Result<((String, Meta), usize), Fault>)
    requires
        i <= b@.len(),
    ensures
        match r {
            Ok(p) => entry_at(b@, i as int) == Ok::<((Seq<char>, MetaV), int), FaultV>(
                ((p.0.0@, p.0.1@), p.1 as int),
            ) && i <= p.1 <= b@.len(),
            Err(e) => entry_at(b@, i as int) == Err::<((Seq<char>, MetaV), int), FaultV>(e@),
        },
{
    match read_string(b, i) {
        Err(e) => Err(e),
        Ok((key, j)) => match read_u32(b, j) {
            Err(e) => Err(e),
            Ok((kind, k)) => match read_value(b, k, kind) {
                Err(e) => Err(e),
                Ok((v, end)) => Ok(((key, v), end)),
            },
        },
    }
}

/// What metadata entries hold.
pub open spec fn meta_views(v: Seq<(String, Meta)>) -> Seq<(Seq<char>, MetaV)> {
    Seq::new(v.len(), |i: int| (v[i].0@, v[i].1@))
}

/// What tensor descriptions hold.
pub open spec fn info_views(v: Seq<Info>) -> Seq<InfoV> {
    Seq::new(v.len(), |i: int| v[i]@)
}

proof fn lemma_entries_stuck(b: Seq<u8>, i: int, m: nat, n: nat)
    requires
        m <= n,
        entries_at(b, i, m) is Err,
    ensures
        entries_at(b, i, n) == entries_at(b, i, m),
    decreases n,
{
    if m < n {
        lemma_entries_stuck(b, i, m, (n - 1) as nat);
    }
}

proof fn lemma_tensors_stuck(b: Seq<u8>, i: int, m: nat, n: nat)
    requires
        m <= n,
        tensors_at(b, i, m) is Err,
    ensures
        tensors_at(b, i, n) == tensors_at(b, i, m),
    decreases n,
{
    if m < n {
        lemma_tensors_stuck(b, i, m, (n - 1) as nat);
    }
}

proof fn lemma_dims_stuck(b: Seq<u8>, i: int, m: nat, n: nat)
    requires
        m <= n,
        dims_at(b, i, m) is Err,
    ensures
        dims_at(b, i, n) == dims_at(b, i, m),
    decreases n,
{
    if m < n {
        lemma_dims_stuck(b, i, m, (n - 1) as nat);
    }
}

#[verifier::loop_isolation(false)]
fn read_entries(b: &[u8], from: usize, n: usize) -> (r: Result<(Vec<(String, Meta)>, usize), Fault>)
    requires
        from <= b@.len(),
    ensures
        match r {
            Ok(p) => entries_at(b@, from as int, n as nat) == Ok::<(Seq<(Seq<char>, MetaV)>, int), FaultV>(
                (meta_views(p.0@), p.1 as int),
            ) && from <= p.1 <= b@.len(),
            Err(e) => entries_at(b@, from as int, n as nat) == Err::<(Seq<(Seq<char>, MetaV)>, int), FaultV>(e@),
        },
{
    let mut out: Vec<(String, Meta)> = Vec::new();
    let mut i: usize = from;
    let mut c: usize = 0;
    assert(meta_views(out@) =~= Seq::empty());
    while c < n
        invariant
            c <= n,
            from <= i <= b@.len(),
            entries_at(b@, from as int, c as nat) == Ok::<(Seq<(Seq<char>, MetaV)>, int), FaultV>(
                (meta_views(out@), i as int),
            ),
        decreases n - c,
    {
        match read_entry(b, i) {
            Err(e) => {
                proof {
                    assert(entries_at(b@, from as int, (c + 1) as nat) == Err::<
                        (Seq<(Seq<char>, MetaV)>, int),
                        FaultV,
                    >(e@));
                    lemma_entries_stuck(b@, from as int, (c + 1) as nat, n as nat);
                }
                return Err(e);
            },
            Ok((m, j)) => {
                let ghost before = out@;
                out.push(m);
                assert(meta_views(out@) =~= meta_views(before).push((m.0@, m.1@)));
                i = j;
                c += 1;
            },
        }
    }
    Ok((out, i))
}

#[verifier::loop_isolation(false)]
fn read_dims(b: &[u8], from: usize, n: usize) -> (r: Result<(Vec<usize>, usize), Fault>)
    requires
        from <= b@.len(),
    ensures
        match r {
            Ok(p) => dims_at(b@, from as int, n as nat) == Ok::<(Seq<usize>, int), FaultV>((p.0@, p.1 as int)) && from
                <= p.1 <= b@.len(),
            Err(e) => dims_at(b@, from as int, n as nat) == Err::<(Seq<usize>, int), FaultV>(e@),
        },
{
    let mut out: Vec<usize> = Vec::new();
    let mut i: usize = from;
    let mut c: usize = 0;
    while c < n
        invariant
            c <= n,
            from <= i <= b@.len(),
            dims_at(b@, from as int, c as nat) == Ok::<(Seq<usize>, int), FaultV>((out@, i as int)),
        decreases n - c,
    {
        match read_u64(b, i) {
            Err(e) => {
                proof {
                    assert(dims_at(b@, from as int, (c + 1) as nat) == Err::<(Seq<usize>, int), FaultV>(e@));
                    lemma_dims_stuck(b@, from as int, (c + 1) as nat, n as nat);
                }
                return Err(e);
            },
            Ok((d, j)) => {
                out.push(
                    #[verifier::truncate]
                    (d as usize),
                );
                i = j;
                c += 1;
            },
        }
    }
    Ok((out, i))
}

fn read_placed(b: &[u8], i: usize) -> (r: Result<((Dt, usize), usize), Fault>)
    requires
        i <= b@.len(),
    ensures
        match r {
            Ok(p) => placed_at(b@, i as int) == Ok::<((Dt, usize), int), FaultV>((p.0, p.1 as int)) && i <= p.1
                <= b@.len(),
            Err(e) => placed_at(b@, i as int) == Err::<((Dt, usize), int), FaultV>(e@),
        },
{
    match read_u32(b, i) {
        Err(e) => Err(e),
        Ok((t, j)) => match dtype(t) {
            Err(e) => Err(e),
            Ok(dt) => match read_u64(b, j) {
                Err(e) => Err(e),
                Ok((offset, k)) => Ok(
                    (
                        (
                            dt,
                            #[verifier::truncate]
                            (offset as usize),
                        ),
                        k,
                    ),
                ),
            },
        },
    }
}

fn reversed(v: &Vec<usize>) -> (r: Vec<usize>)
    ensures
        r@ == v@.reverse(),
{
    let mut out: Vec<usize> = Vec::new();
    let mut i: usize = v.len();
    while i > 0
        invariant
            i <= v@.len(),
            out@.len() == v@.len() - i,
            forall|k: int| 0 <= k < out@.len() ==> out@[k] == v@[v@.len() - 1 - k],
        decreases i,
    {
        i -= 1;
        out.push(v[i]);
    }
    assert(out@ =~= v@.reverse());
    out
}

fn read_tensor(b: &[u8], i: usize) -> (r: Result<(Info, usize), Fault>)
    requires
        i <= b@.len(),
    ensures
        match r {
            Ok(p) => tensor_at(b@, i as int) == Ok::<(InfoV, int), FaultV>((p.0@, p.1 as int)) && i <= p.1 <= b@.len(),
            Err(e) => tensor_at(b@, i as int) == Err::<(InfoV, int), FaultV>(e@),
        },
{
    match read_string(b, i) {
        Err(e) => Err(e),
        Ok((name, j)) => match read_u32(b, j) {
            Err(e) => Err(e),
            Ok((dims, k)) => {
                if dims == 0 || dims > 4 {
                    return Err(Fault::Dims(name, dims as usize));
                }
                match read_dims(b, k, dims as usize) {
                    Err(e) => Err(e),
                    Ok((shape, l)) => match read_placed(b, l) {
                        Err(e) => Err(e),
                        Ok((p, end)) => Ok((Info { name, shape: reversed(&shape), dt: p.0, offset: p.1 }, end)),
                    },
                }
            },
        },
    }
}

#[verifier::loop_isolation(false)]
fn read_tensors(b: &[u8], from: usize, n: usize) -> (r: Result<(Vec<Info>, usize), Fault>)
    requires
        from <= b@.len(),
    ensures
        match r {
            Ok(p) => tensors_at(b@, from as int, n as nat) == Ok::<(Seq<InfoV>, int), FaultV>(
                (info_views(p.0@), p.1 as int),
            ) && from <= p.1 <= b@.len(),
            Err(e) => tensors_at(b@, from as int, n as nat) == Err::<(Seq<InfoV>, int), FaultV>(e@),
        },
{
    let mut out: Vec<Info> = Vec::new();
    let mut i: usize = from;
    let mut c: usize = 0;
    assert(info_views(out@) =~= Seq::empty());
    while c < n
        invariant
            c <= n,
            from <= i <= b@.len(),
            tensors_at(b@, from as int, c as nat) == Ok::<(Seq<InfoV>, int), FaultV>((info_views(out@), i as int)),
        decreases n - c,
    {
        match read_tensor(b, i) {
            Err(e) => {
                proof {
                    assert(tensors_at(b@, from as int, (c + 1) as nat) == Err::<(Seq<InfoV>, int), FaultV>(e@));
                    lemma_tensors_stuck(b@, from as int, (c + 1) as nat, n as nat);
                }
                return Err(e);
            },
            Ok((m, j)) => {
                let ghost before = out@;
                out.push(m);
                assert(info_views(out@) =~= info_views(before).push(m@));
                i = j;
                c += 1;
            },
        }
    }
    Ok((out, i))
}

/// A parsed GGUF header.
#[derive(Debug)]
pub struct Gguf {
    /// The metadata entries in the order of the file. Where a key comes twice, the
    /// last one counts.
    pub meta: Vec<(String, Meta)>,
    pub tensors: Vec<Info>,
    /// Where tensor data begins in the file.
    pub data: usize,
}

/// What a [`Gguf`] holds.
#[verifier::ext_equal]
pub struct GgufV {
    pub meta: Seq<(Seq<char>, MetaV)>,
    pub tensors: Seq<InfoV>,
    pub data: int,
}

impl View for Gguf {
    type V = GgufV;

    open spec fn view(&self) -> GgufV {
        GgufV { meta: meta_views(self.meta@), tensors: info_views(self.tensors@), data: self.data as int }
    }
}

/// The last of the first `n` entries under a key.
pub open spec fn last_under(m: Seq<(Seq<char>, MetaV)>, key: Seq<char>, n: nat) -> Option<MetaV>
    decreases n,
{
    if n == 0 || n > m.len() {
        None
    } else if m[n - 1].0 == key {
        Some(m[n - 1].1)
    } else {
        last_under(m, key, (n - 1) as nat)
    }
}

/// The magic that a file starts with.
pub open spec fn has_magic(b: Seq<u8>) -> bool {
    b.len() >= 4 && b[0] == 71 && b[1] == 71 && b[2] == 85 && b[3] == 70
}

/// The boundary that the data section is aligned to.
pub open spec fn alignment(m: Seq<(Seq<char>, MetaV)>) -> int {
    match last_under(m, "general.alignment"@, m.len()) {
        None => 32,
        Some(v) => match v.as_i64() {
            None => 32,
            Some(a) => if a < 1 {
                1
            } else {
                a as int
            },
        },
    }
}

/// The first multiple of `a` at or after `i`.
pub open spec fn aligned(i: int, a: int) -> int {
    if i % a == 0 {
        i
    } else {
        i + (a - i % a)
    }
}

/// What a file of these bytes holds: the magic, a version, the counts, the
/// metadata, the tensors, and data from the next boundary on.
pub open spec fn parsed(b: Seq<u8>) -> Result<GgufV, FaultV> {
    if !has_magic(b) {
        Err(FaultV::NotGguf)
    } else {
        match u32_at(b, 4) {
            Err(e) => Err(e),
            Ok((version, i)) => if !(2 <= version <= 3) {
                Err(FaultV::Version(version))
            } else {
                match u64_at(b, i) {
                    Err(e) => Err(e),
                    Ok((n_tensors, j)) => match u64_at(b, j) {
                        Err(e) => Err(e),
                        Ok((n_meta, k)) => if n_tensors as usize > b.len() || n_meta as usize > b.len() {
                            Err(FaultV::Counts)
                        } else {
                            body_at(b, k, n_tensors as usize as nat, n_meta as usize as nat)
                        },
                    },
                }
            },
        }
    }
}

/// What the counts say follows.
pub open spec fn body_at(b: Seq<u8>, i: int, n_tensors: nat, n_meta: nat) -> Result<GgufV, FaultV> {
    match entries_at(b, i, n_meta) {
        Err(e) => Err(e),
        Ok((meta, j)) => match tensors_at(b, j, n_tensors) {
            Err(e) => Err(e),
            Ok((tensors, end)) => if aligned(end, alignment(meta)) > b.len() {
                Err(FaultV::Overrun)
            } else {
                Ok(GgufV { meta, tensors, data: aligned(end, alignment(meta)) })
            },
        },
    }
}

/// Whether a buffer starts with GGUF's magic.
pub fn is_gguf(b: &[u8]) -> (r: bool)
    ensures
        r == has_magic(b@),
{
    b.len() >= 4 && b[0] == 71 && b[1] == 71 && b[2] == 85 && b[3] == 70
}

fn entry_under<'a>(m: &'a Vec<(String, Meta)>, key: &str) -> (r: Option<&'a Meta>)
    ensures
        match r {
            Some(v) => last_under(meta_views(m@), key@, m@.len()) == Some(v@),
            None => last_under(meta_views(m@), key@, m@.len()) is None,
        },
{
    let mut n: usize = m.len();
    while n > 0
        invariant
            n <= m@.len(),
            last_under(meta_views(m@), key@, m@.len()) == last_under(meta_views(m@), key@, n as nat),
        decreases n,
    {
        let e: &(String, Meta) = &m[n - 1];
        assert(meta_views(m@)[n - 1] == (e.0@, e.1@));
        if same(e.0.as_str(), key) {
            return Some(&e.1);
        }
        n -= 1;
    }
    None
}

impl Gguf {
    pub fn parse(b: &[u8]) -> (r: Result<Gguf, Fault>)
        ensures
            match r {
                Ok(g) => parsed(b@) == Ok::<GgufV, FaultV>(g@),
                Err(e) => parsed(b@) == Err::<GgufV, FaultV>(e@),
            },
    {
        if !is_gguf(b) {
            return Err(Fault::NotGguf);
        }
        let (version, i): (u32, usize) = match read_u32(b, 4) {
            Err(e) => return Err(e),
            Ok(p) => p,
        };
        if version < 2 || version > 3 {
            return Err(Fault::Version(version));
        }
        let (wide_tensors, j): (u64, usize) = match read_u64(b, i) {
            Err(e) => return Err(e),
            Ok(p) => p,
        };
        let (wide_meta, k): (u64, usize) = match read_u64(b, j) {
            Err(e) => return Err(e),
            Ok(p) => p,
        };
        let n_tensors: usize = #[verifier::truncate]
        (wide_tensors as usize);
        let n_meta: usize = #[verifier::truncate]
        (wide_meta as usize);
        // Both counts index into the file, so neither can exceed its length.
        if n_tensors > b.len() || n_meta > b.len() {
            return Err(Fault::Counts);
        }
        let (meta, l): (Vec<(String, Meta)>, usize) = match read_entries(b, k, n_meta) {
            Err(e) => return Err(e),
            Ok(p) => p,
        };
        let (tensors, end): (Vec<Info>, usize) = match read_tensors(b, l, n_tensors) {
            Err(e) => return Err(e),
            Ok(p) => p,
        };
        // Tensor data starts at the next alignment boundary after the header.
        let align: u64 = match entry_under(&meta, "general.alignment") {
            None => 32,
            Some(v) => match v.as_i64() {
                None => 32,
                Some(a) => if a < 1 {
                    1
                } else {
                    a as u64
                },
            },
        };
        let over: u64 = end as u64 % align;
        assert(align == alignment(meta_views(meta@)));
        let data: usize = if over == 0 {
            end
        } else {
            let gap: u64 = align - over;
            if gap > (b.len() - end) as u64 {
                return Err(Fault::Overrun);
            }
            end + gap as usize
        };
        Ok(Gguf { meta, tensors, data })
    }

    /// The value under a key.
    pub fn get(&self, key: &str) -> (r: Option<&Meta>)
        ensures
            match r {
                Some(v) => self@.get(key@) == Some(v@),
                None => self@.get(key@) is None,
            },
    {
        entry_under(&self.meta, key)
    }

    pub fn arch(&self) -> (r: &str)
        ensures
            r@ == self@.arch(),
    {
        match self.get("general.architecture") {
            None => "llama",
            Some(v) => match v.as_str() {
                None => "llama",
                Some(s) => s,
            },
        }
    }

    /// A key under the architecture's own namespace, as GGUF scopes them.
    pub fn arch_key(&self, suffix: &str) -> (r: Option<&Meta>)
        ensures
            match r {
                Some(v) => self@.arch_key(suffix@) == Some(v@),
                None => self@.arch_key(suffix@) is None,
            },
    {
        let key: String = join3(self.arch(), ".", suffix);
        self.get(key.as_str())
    }

    /// The chat template GGUF stores as a plain metadata string.
    pub fn chat_template(&self) -> (r: Option<String>)
        ensures
            match r {
                Some(s) => self@.text_under("tokenizer.chat_template"@) == Some(s@),
                None => self@.text_under("tokenizer.chat_template"@) is None,
            },
    {
        match self.get("tokenizer.chat_template") {
            None => None,
            Some(v) => match v.as_str() {
                None => None,
                Some(s) => Some(s.to_owned()),
            },
        }
    }
}

impl GgufV {
    /// The value under a key.
    pub open spec fn get(self, key: Seq<char>) -> Option<MetaV> {
        last_under(self.meta, key, self.meta.len())
    }

    /// The text under a key, where it is one.
    pub open spec fn text_under(self, key: Seq<char>) -> Option<Seq<char>> {
        match self.get(key) {
            None => None,
            Some(v) => v.as_str(),
        }
    }

    /// The whole number under a key, where it counts as one.
    pub open spec fn int_under(self, key: Seq<char>) -> Option<i64> {
        match self.get(key) {
            None => None,
            Some(v) => v.as_i64(),
        }
    }

    /// The architecture's name.
    pub open spec fn arch(self) -> Seq<char> {
        match self.text_under("general.architecture"@) {
            Some(s) => s,
            None => "llama"@,
        }
    }

    /// A key under the architecture's own namespace.
    pub open spec fn scoped(self, suffix: Seq<char>) -> Seq<char> {
        self.arch() + "."@ + suffix
    }

    pub open spec fn arch_key(self, suffix: Seq<char>) -> Option<MetaV> {
        self.get(self.scoped(suffix))
    }
}

/// A value of a synthesised config.
#[derive(Debug)]
pub enum Field {
    Int(i64),
    Real(Real),
    Bool(bool),
    Str(String),
    /// A list of one text.
    List(String),
    /// Rope scaling: its type, its factor and the context it was trained at.
    Scaling(String, Real, Option<i64>),
}

/// What a [`Field`] holds.
pub enum FieldV {
    Int(i64),
    Real(Real),
    Bool(bool),
    Str(Seq<char>),
    List(Seq<char>),
    Scaling(Seq<char>, Real, Option<i64>),
}

impl View for Field {
    type V = FieldV;

    open spec fn view(&self) -> FieldV {
        match *self {
            Field::Int(v) => FieldV::Int(v),
            Field::Real(v) => FieldV::Real(v),
            Field::Bool(v) => FieldV::Bool(v),
            Field::Str(s) => FieldV::Str(s@),
            Field::List(s) => FieldV::List(s@),
            Field::Scaling(k, f, o) => FieldV::Scaling(k@, f, o),
        }
    }
}

/// What the fields of a config hold.
pub open spec fn field_views(v: Seq<(String, Field)>) -> Seq<(Seq<char>, FieldV)> {
    Seq::new(v.len(), |i: int| (v[i].0@, v[i].1@))
}

/// A config with one field more, where there is a value for it.
pub open spec fn with(c: Seq<(Seq<char>, FieldV)>, key: Seq<char>, v: Option<FieldV>) -> Seq<(Seq<char>, FieldV)> {
    match v {
        Some(f) => c.push((key, f)),
        None => c,
    }
}

impl MetaV {
    /// The value as a floating-point number, where it is a number.
    pub open spec fn as_real(self) -> Option<Real> {
        match self {
            MetaV::Float(b) => Some(Real::Bits(b)),
            MetaV::Int(i) => Some(
                if i >= 0 {
                    Real::Pos(i as u64)
                } else {
                    Real::Neg(i)
                },
            ),
            _ => None,
        }
    }
}

impl GgufV {
    pub open spec fn whole(self, suffix: Seq<char>) -> Option<FieldV> {
        match self.int_under(self.scoped(suffix)) {
            Some(i) => Some(FieldV::Int(i)),
            None => None,
        }
    }

    pub open spec fn real_under(self, suffix: Seq<char>) -> Option<Real> {
        match self.arch_key(suffix) {
            Some(v) => v.as_real(),
            None => None,
        }
    }

    pub open spec fn measure(self, suffix: Seq<char>) -> Option<FieldV> {
        match self.real_under(suffix) {
            Some(r) => Some(FieldV::Real(r)),
            None => None,
        }
    }

    pub open spec fn flag_under(self, key: Seq<char>) -> Option<bool> {
        match self.get(key) {
            Some(v) => v.as_flag(),
            None => None,
        }
    }

    /// How many experts a layer declares. GGUF names the key even for dense
    /// models; a zero declares none.
    pub open spec fn experts(self) -> Option<FieldV> {
        if self.int_under(self.scoped("expert_count"@)) == Some(0i64) {
            None
        } else {
            self.whole("expert_count"@)
        }
    }

    /// How many experts a token is given, where any are declared.
    pub open spec fn experts_used(self) -> Option<FieldV> {
        if self.int_under(self.scoped("expert_count"@)) == Some(0i64) {
            None
        } else {
            self.whole("expert_used_count"@)
        }
    }

    /// 1 is softmax, 2 is sigmoid, in llama.cpp's numbering.
    pub open spec fn scoring(self) -> Option<FieldV> {
        match self.int_under(self.scoped("expert_gating_func"@)) {
            Some(g) => Some(
                FieldV::Str(
                    if g == 2 {
                        "sigmoid"@
                    } else {
                        "softmax"@
                    },
                ),
            ),
            None => None,
        }
    }

    /// Whether the routing weights are renormalised: as stated, or else as the
    /// architecture does.
    pub open spec fn renormalised(self) -> bool {
        match self.flag_under(self.scoped("expert_weights_norm"@)) {
            Some(b) => b,
            None => !(self.arch() == "olmoe"@ || self.arch() == "qwen2moe"@ || self.arch() == "grok"@),
        }
    }

    /// Rope scaling, in GGUF's flat spelling: a factor above one turns it on.
    pub open spec fn scaling(self) -> Option<FieldV> {
        match self.real_under("rope.scaling.factor"@) {
            None => None,
            Some(f) => if f.exceeds_one() {
                Some(
                    FieldV::Scaling(
                        match self.text_under(self.scoped("rope.scaling.type"@)) {
                            Some(k) => k,
                            None => "linear"@,
                        },
                        f,
                        self.int_under(self.scoped("rope.scaling.original_context_length"@)),
                    ),
                )
            } else {
                None
            },
        }
    }

    /// A token number of the vocabulary.
    pub open spec fn token(self, key: Seq<char>) -> Option<FieldV> {
        match self.int_under(key) {
            Some(i) => Some(FieldV::Int(i)),
            None => None,
        }
    }

    /// The token to prepend: none where the file says not to.
    pub open spec fn first_token(self) -> Option<FieldV> {
        if self.flag_under("tokenizer.ggml.add_bos_token"@) == Some(false) {
            None
        } else {
            self.token("tokenizer.ggml.bos_token_id"@)
        }
    }

    /// The config that the metadata amounts to.
    pub open spec fn config(self) -> Seq<(Seq<char>, FieldV)> {
        let c = Seq::<(Seq<char>, FieldV)>::empty();
        let c = with(c, "model_type"@, Some(FieldV::Str(self.arch())));
        let c = with(c, "architectures"@, Some(FieldV::List(self.arch() + "ForCausalLM"@)));
        let c = with(c, "num_hidden_layers"@, self.whole("block_count"@));
        let c = with(c, "num_attention_heads"@, self.whole("attention.head_count"@));
        let c = with(c, "num_key_value_heads"@, self.whole("attention.head_count_kv"@));
        let c = with(c, "head_dim"@, self.whole("attention.key_length"@));
        let c = with(c, "max_position_embeddings"@, self.whole("context_length"@));
        let c = with(c, "num_experts"@, self.experts());
        let c = with(c, "num_experts_per_tok"@, self.experts_used());
        let c = with(c, "routed_scaling_factor"@, self.measure("expert_weights_scale"@));
        let c = with(c, "n_group"@, self.whole("expert_group_count"@));
        let c = with(c, "topk_group"@, self.whole("expert_group_used_count"@));
        let c = with(c, "scoring_func"@, self.scoring());
        let c = with(c, "norm_topk_prob"@, Some(FieldV::Bool(self.renormalised())));
        let c = with(c, "rms_norm_eps"@, self.measure("attention.layer_norm_rms_epsilon"@));
        let c = with(c, "rope_theta"@, self.measure("rope.freq_base"@));
        let c = with(c, "sliding_window"@, self.whole("attention.sliding_window"@));
        let c = with(c, "rope_scaling"@, self.scaling());
        let c = with(c, "bos_token_id"@, self.first_token());
        with(c, "eos_token_id"@, self.token("tokenizer.ggml.eos_token_id"@))
    }
}

/// What an optional field holds.
pub open spec fn field_of(v: Option<Field>) -> Option<FieldV> {
    match v {
        Some(f) => Some(f@),
        None => None,
    }
}

fn set(c: &mut Vec<(String, Field)>, key: &str, v: Option<Field>)
    ensures
        field_views(final(c)@) == with(field_views(old(c)@), key@, field_of(v)),
{
    if let Some(f) = v {
        c.push((key.to_owned(), f));
        assert(field_views(c@) =~= field_views(old(c)@).push((key@, f@)));
    }
}

impl Gguf {
    fn int_under(&self, key: &str) -> (r: Option<i64>)
        ensures
            r == self@.int_under(key@),
    {
        match self.get(key) {
            None => None,
            Some(v) => v.as_i64(),
        }
    }

    fn whole(&self, suffix: &str) -> (r: Option<Field>)
        ensures
            field_of(r) == self@.whole(suffix@),
    {
        match self.arch_key(suffix) {
            None => None,
            Some(v) => match v.as_i64() {
                Some(i) => Some(Field::Int(i)),
                None => None,
            },
        }
    }

    fn real_under(&self, suffix: &str) -> (r: Option<Real>)
        ensures
            r == self@.real_under(suffix@),
    {
        match self.arch_key(suffix) {
            None => None,
            Some(v) => match v {
                Meta::Float(b) => Some(Real::Bits(*b)),
                Meta::Int(i) => Some(
                    if *i >= 0 {
                        Real::Pos(*i as u64)
                    } else {
                        Real::Neg(*i)
                    },
                ),
                _ => None,
            },
        }
    }

    fn measure(&self, suffix: &str) -> (r: Option<Field>)
        ensures
            field_of(r) == self@.measure(suffix@),
    {
        match self.real_under(suffix) {
            Some(x) => Some(Field::Real(x)),
            None => None,
        }
    }

    fn renormalised(&self) -> (r: bool)
        ensures
            r == self@.renormalised(),
    {
        let stated: Option<bool> = match self.arch_key("expert_weights_norm") {
            None => None,
            Some(v) => v.as_flag(),
        };
        match stated {
            Some(b) => b,
            None => !(same(self.arch(), "olmoe") || same(self.arch(), "qwen2moe") || same(self.arch(), "grok")),
        }
    }

    fn scaling(&self) -> (r: Option<Field>)
        ensures
            field_of(r) == self@.scaling(),
    {
        let f: Real = match self.real_under("rope.scaling.factor") {
            None => return None,
            Some(f) => f,
        };
        if !f.is_above_one() {
            return None;
        }
        let kind: String = match self.arch_key("rope.scaling.type") {
            None => "linear".to_owned(),
            Some(v) => match v.as_str() {
                None => "linear".to_owned(),
                Some(s) => s.to_owned(),
            },
        };
        let original: Option<i64> = match self.arch_key("rope.scaling.original_context_length") {
            None => None,
            Some(v) => v.as_i64(),
        };
        Some(Field::Scaling(kind, f, original))
    }

    /// Synthesise the `config.json` the engine's detection reads.
    ///
    /// Only the values that cannot be recovered from tensor shapes are needed,
    /// which is the same short list detection asks a Hugging Face config for.
    pub fn config(&self) -> (r: Vec<(String, Field)>)
        ensures
            field_views(r@) == self@.config(),
    {
        let mut c: Vec<(String, Field)> = Vec::new();
        assert(field_views(c@) =~= Seq::<(Seq<char>, FieldV)>::empty());
        set(&mut c, "model_type", Some(Field::Str(self.arch().to_owned())));
        set(&mut c, "architectures", Some(Field::List(join(self.arch(), "ForCausalLM"))));
        set(&mut c, "num_hidden_layers", self.whole("block_count"));
        set(&mut c, "num_attention_heads", self.whole("attention.head_count"));
        set(&mut c, "num_key_value_heads", self.whole("attention.head_count_kv"));
        set(&mut c, "head_dim", self.whole("attention.key_length"));
        set(&mut c, "max_position_embeddings", self.whole("context_length"));
        let count: Option<i64> = match self.arch_key("expert_count") {
            None => None,
            Some(v) => v.as_i64(),
        };
        let dense: bool = match count {
            Some(n) => n == 0,
            None => false,
        };
        set(
            &mut c,
            "num_experts",
            if dense {
                None
            } else {
                self.whole("expert_count")
            },
        );
        set(
            &mut c,
            "num_experts_per_tok",
            if dense {
                None
            } else {
                self.whole("expert_used_count")
            },
        );
        set(&mut c, "routed_scaling_factor", self.measure("expert_weights_scale"));
        set(&mut c, "n_group", self.whole("expert_group_count"));
        set(&mut c, "topk_group", self.whole("expert_group_used_count"));
        let gating: Option<i64> = match self.arch_key("expert_gating_func") {
            None => None,
            Some(v) => v.as_i64(),
        };
        let scoring: Option<Field> = match gating {
            Some(g) => Some(
                Field::Str(
                    if g == 2 {
                        "sigmoid".to_owned()
                    } else {
                        "softmax".to_owned()
                    },
                ),
            ),
            None => None,
        };
        set(&mut c, "scoring_func", scoring);
        // Getting this one wrong produces fluent nonsense rather than an error:
        // the experts are right and their mixture is not.
        set(&mut c, "norm_topk_prob", Some(Field::Bool(self.renormalised())));
        set(&mut c, "rms_norm_eps", self.measure("attention.layer_norm_rms_epsilon"));
        set(&mut c, "rope_theta", self.measure("rope.freq_base"));
        set(&mut c, "sliding_window", self.whole("attention.sliding_window"));
        set(&mut c, "rope_scaling", self.scaling());
        // GGUF names a beginning-of-sequence token *and* says whether to prepend
        // it. Honouring the id but not the flag silently prefixes every prompt
        // with a token the checkpoint did not want.
        let add: Option<bool> = match self.get("tokenizer.ggml.add_bos_token") {
            None => None,
            Some(v) => v.as_flag(),
        };
        let first: Option<Field> = match add {
            Some(false) => None,
            _ => match self.int_under("tokenizer.ggml.bos_token_id") {
                Some(i) => Some(Field::Int(i)),
                None => None,
            },
        };
        set(&mut c, "bos_token_id", first);
        let last: Option<Field> = match self.int_under("tokenizer.ggml.eos_token_id") {
            Some(i) => Some(Field::Int(i)),
            None => None,
        };
        set(&mut c, "eos_token_id", last);
        c
    }
}

/// Whether a token comes again after `i`.
pub open spec fn repeated(tokens: Seq<Seq<char>>, i: int) -> bool {
    exists|j: int| i < j < tokens.len() && #[trigger] tokens[j] == tokens[i]
}

/// The first `n` tokens, each with its number. Where a token comes twice, the last
/// number counts.
pub open spec fn numbered(tokens: Seq<Seq<char>>, n: nat) -> Seq<(Seq<char>, JsonV)>
    decreases n,
{
    if n == 0 {
        Seq::empty()
    } else {
        let rest = numbered(tokens, (n - 1) as nat);
        if repeated(tokens, n - 1) {
            rest
        } else {
            rest.push((tokens[n - 1], JsonV::Num(NumberV::Pos((n - 1) as u64))))
        }
    }
}

/// The control tokens among the first `n`: those of type 3.
pub open spec fn controls(tokens: Seq<Seq<char>>, types: Seq<i64>, n: nat) -> Seq<JsonV>
    decreases n,
{
    if n == 0 {
        Seq::empty()
    } else {
        let rest = controls(tokens, types, (n - 1) as nat);
        if n - 1 < types.len() && types[n - 1] == 3 {
            rest.push(control(tokens[n - 1], (n - 1) as u64))
        } else {
            rest
        }
    }
}

/// A control token as a `tokenizer.json` describes it.
pub open spec fn control(token: Seq<char>, id: u64) -> JsonV {
    JsonV::Obj(
        seq![
            ("id"@, JsonV::Num(NumberV::Pos(id))),
            ("content"@, JsonV::Str(token)),
            ("special"@, JsonV::Bool(true)),
        ],
    )
}

/// Texts as JSON.
pub open spec fn strings(v: Seq<Seq<char>>) -> Seq<JsonV> {
    Seq::new(v.len(), |i: int| JsonV::Str(v[i]))
}

/// A description that is only a type.
pub open spec fn typed(kind: Seq<char>) -> JsonV {
    JsonV::Obj(seq![("type"@, JsonV::Str(kind))])
}

impl GgufV {
    /// The merges of the vocabulary.
    pub open spec fn merges(self) -> Seq<Seq<char>> {
        match self.get("tokenizer.ggml.merges"@) {
            Some(MetaV::Strs(m)) => m,
            _ => Seq::empty(),
        }
    }

    /// The types of the tokens.
    pub open spec fn token_types(self) -> Seq<i64> {
        match self.get("tokenizer.ggml.token_type"@) {
            Some(MetaV::Ints(v)) => v,
            _ => Seq::empty(),
        }
    }

    /// The kind of the vocabulary.
    pub open spec fn vocabulary(self) -> Seq<char> {
        match self.text_under("tokenizer.ggml.model"@) {
            Some(m) => m,
            None => "gpt2"@,
        }
    }

    /// How text is cut up before merging: a `llama` vocabulary is metaspace,
    /// `gpt2` is byte-level.
    pub open spec fn pretokenizer(self) -> JsonV {
        if self.vocabulary() == "llama"@ || self.vocabulary() == "spm"@ {
            JsonV::Obj(seq![("type"@, JsonV::Str("Metaspace"@)), ("replacement"@, JsonV::Str("\u{2581}"@))])
        } else {
            typed("ByteLevel"@)
        }
    }

    pub open spec fn decoder(self) -> JsonV {
        if self.vocabulary() == "llama"@ || self.vocabulary() == "spm"@ {
            typed("Metaspace"@)
        } else {
            typed("ByteLevel"@)
        }
    }

    /// The `tokenizer.json` that the vocabulary amounts to: none without tokens,
    /// and none for a vocabulary without merges that is not byte-level, which the
    /// reader would silently mis-tokenise.
    pub open spec fn tokenizer(self) -> Option<JsonV> {
        match self.get("tokenizer.ggml.tokens"@) {
            Some(MetaV::Strs(tokens)) => if self.merges().len() == 0 && self.vocabulary() != "gpt2"@ {
                None
            } else {
                Some(
                    JsonV::Obj(
                        seq![
                            (
                                "model"@,
                                JsonV::Obj(
                                    seq![
                                        ("type"@, JsonV::Str("BPE"@)),
                                        ("vocab"@, JsonV::Obj(numbered(tokens, tokens.len()))),
                                        ("merges"@, JsonV::Arr(strings(self.merges()))),
                                    ],
                                ),
                            ),
                            ("added_tokens"@, JsonV::Arr(controls(tokens, self.token_types(), tokens.len()))),
                            ("pre_tokenizer"@, self.pretokenizer()),
                            ("decoder"@, self.decoder()),
                        ],
                    ),
                )
            },
            _ => None,
        }
    }
}

fn positions(tokens: &Vec<String>) -> (r: StringHashMap<usize>)
    ensures
        forall|i: int|
            0 <= i < tokens@.len() ==> r@.dom().contains(#[trigger] tokens@[i]@) && i <= r@[tokens@[i]@]
                < tokens@.len() && tokens@[r@[tokens@[i]@] as int]@ == tokens@[i]@,
{
    let mut last: StringHashMap<usize> = StringHashMap::new();
    let mut c: usize = 0;
    while c < tokens.len()
        invariant
            c <= tokens@.len(),
            forall|i: int|
                0 <= i < c ==> last@.dom().contains(#[trigger] tokens@[i]@) && i <= last@[tokens@[i]@] < c
                    && tokens@[last@[tokens@[i]@] as int]@ == tokens@[i]@,
        decreases tokens@.len() - c,
    {
        last.insert(tokens[c].as_str().to_owned(), c);
        c += 1;
    }
    last
}

fn number_tokens(tokens: &Vec<String>) -> (r: Vec<(String, Json)>)
    ensures
        entry_views(r@) == numbered(texts(tokens@), tokens@.len()),
{
    let last: StringHashMap<usize> = positions(tokens);
    let ghost t = texts(tokens@);
    let mut out: Vec<(String, Json)> = Vec::new();
    let mut c: usize = 0;
    assert(entry_views(out@) =~= numbered(t, 0));
    while c < tokens.len()
        invariant
            c <= tokens@.len(),
            t == texts(tokens@),
            forall|i: int|
                0 <= i < tokens@.len() ==> last@.dom().contains(#[trigger] tokens@[i]@) && i <= last@[tokens@[i]@]
                    < tokens@.len() && tokens@[last@[tokens@[i]@] as int]@ == tokens@[i]@,
            entry_views(out@) == numbered(t, c as nat),
        decreases tokens@.len() - c,
    {
        let token: &str = tokens[c].as_str();
        let only: bool = match last.get(token) {
            Some(at) => *at == c,
            None => true,
        };
        proof {
            assert(t[c as int] == token@);
            let l = last@[token@] as int;
            if only {
                assert forall|j: int| c < j < t.len() implies #[trigger] t[j] != t[c as int] by {
                    assert(t[j] == tokens@[j]@);
                }
                assert(!repeated(t, c as int));
            } else {
                assert(t[l] == tokens@[l]@);
                assert(repeated(t, c as int));
            }
        }
        if only {
            put(&mut out, token, number(c as u64));
        }
        c += 1;
    }
    out
}

fn control_tokens(tokens: &Vec<String>, types: &Vec<i64>) -> (r: Vec<Json>)
    ensures
        item_views(r@) == controls(texts(tokens@), types@, tokens@.len()),
{
    let ghost t = texts(tokens@);
    let mut out: Vec<Json> = Vec::new();
    let mut c: usize = 0;
    assert(item_views(out@) =~= controls(t, types@, 0));
    while c < tokens.len()
        invariant
            c <= tokens@.len(),
            t == texts(tokens@),
            item_views(out@) == controls(t, types@, c as nat),
        decreases tokens@.len() - c,
    {
        if c < types.len() && types[c] == 3 {
            let mut e: Vec<(String, Json)> = Vec::new();
            assert(entry_views(e@) =~= Seq::empty());
            put(&mut e, "id", number(c as u64));
            put(&mut e, "content", string(tokens[c].as_str()));
            put(&mut e, "special", Json::Bool(true));
            let j: Json = object(e);
            assert(j@ == control(t[c as int], c as u64)) by {
                assert(j@->Obj_0 =~= control(t[c as int], c as u64)->Obj_0);
            }
            add_item(&mut out, j);
        }
        c += 1;
    }
    out
}

fn json_strings(v: &Vec<String>) -> (r: Vec<Json>)
    ensures
        item_views(r@) == strings(texts(v@)),
{
    let mut out: Vec<Json> = Vec::new();
    let mut c: usize = 0;
    while c < v.len()
        invariant
            c <= v@.len(),
            out@.len() == c,
            forall|i: int| 0 <= i < c ==> (#[trigger] out@[i])@ == JsonV::Str(v@[i]@),
        decreases v@.len() - c,
    {
        out.push(string(v[c].as_str()));
        c += 1;
    }
    assert(item_views(out@) =~= strings(texts(v@)));
    out
}

fn json_typed(kind: &str) -> (r: Json)
    ensures
        r@ == typed(kind@),
{
    let mut e: Vec<(String, Json)> = Vec::new();
    assert(entry_views(e@) =~= Seq::empty());
    put(&mut e, "type", string(kind));
    let j: Json = object(e);
    assert(j@->Obj_0 =~= typed(kind@)->Obj_0);
    j
}

impl Gguf {
    fn vocabulary(&self) -> (r: &str)
        ensures
            r@ == self@.vocabulary(),
    {
        match self.get("tokenizer.ggml.model") {
            None => "gpt2",
            Some(v) => match v.as_str() {
                None => "gpt2",
                Some(s) => s,
            },
        }
    }

    fn pretokenizer(&self) -> (r: Json)
        ensures
            r@ == self@.pretokenizer(),
    {
        let model: &str = self.vocabulary();
        if same(model, "llama") || same(model, "spm") {
            let mut e: Vec<(String, Json)> = Vec::new();
            assert(entry_views(e@) =~= Seq::empty());
            put(&mut e, "type", string("Metaspace"));
            put(&mut e, "replacement", string("\u{2581}"));
            let j: Json = object(e);
            assert(j@->Obj_0 =~= self@.pretokenizer()->Obj_0);
            j
        } else {
            json_typed("ByteLevel")
        }
    }

    fn decoder(&self) -> (r: Json)
        ensures
            r@ == self@.decoder(),
    {
        let model: &str = self.vocabulary();
        if same(model, "llama") || same(model, "spm") {
            json_typed("Metaspace")
        } else {
            json_typed("ByteLevel")
        }
    }

    /// Build a `tokenizer.json` from the vocabulary GGUF carries.
    ///
    /// Returns `None` when the file has no vocabulary, or uses one this engine
    /// cannot express.
    pub fn tokenizer(&self) -> (r: Option<Json>)
        ensures
            match r {
                Some(j) => self@.tokenizer() == Some(j@),
                None => self@.tokenizer() is None,
            },
    {
        let tokens: &Vec<String> = match self.get("tokenizer.ggml.tokens") {
            Some(Meta::Strs(t)) => t,
            _ => return None,
        };
        let none: Vec<String> = Vec::new();
        let merges: &Vec<String> = match self.get("tokenizer.ggml.merges") {
            Some(Meta::Strs(m)) => m,
            _ => &none,
        };
        assert(texts(merges@) =~= self@.merges());
        if merges.len() == 0 && !same(self.vocabulary(), "gpt2") {
            return None;
        }
        let untyped: Vec<i64> = Vec::new();
        let types: &Vec<i64> = match self.get("tokenizer.ggml.token_type") {
            Some(Meta::Ints(v)) => v,
            _ => &untyped,
        };
        assert(types@ =~= self@.token_types());
        let mut model: Vec<(String, Json)> = Vec::new();
        assert(entry_views(model@) =~= Seq::empty());
        put(&mut model, "type", string("BPE"));
        put(&mut model, "vocab", object(number_tokens(tokens)));
        put(&mut model, "merges", array(json_strings(merges)));
        let ghost inner = seq![
            ("type"@, JsonV::Str("BPE"@)),
            ("vocab"@, JsonV::Obj(numbered(texts(tokens@), tokens@.len()))),
            ("merges"@, JsonV::Arr(strings(self@.merges()))),
        ];
        assert(entry_views(model@) =~= inner);
        let mut all: Vec<(String, Json)> = Vec::new();
        assert(entry_views(all@) =~= Seq::empty());
        put(&mut all, "model", object(model));
        put(&mut all, "added_tokens", array(control_tokens(tokens, types)));
        put(&mut all, "pre_tokenizer", self.pretokenizer());
        put(&mut all, "decoder", self.decoder());
        let r: Json = object(all);
        assert(r@->Obj_0 =~= self@.tokenizer()->0->Obj_0);
        Some(r)
    }
}

/// What the engine calls a per-layer tensor that GGUF names this way.
pub open spec fn engine_suffix(s: Seq<char>) -> Option<Seq<char>> {
    if s == "attn_norm.weight"@ {
        Some("input_layernorm.weight"@)
    } else if s == "attn_q_norm.weight"@ {
        Some("self_attn.q_norm.weight"@)
    } else if s == "attn_k_norm.weight"@ {
        Some("self_attn.k_norm.weight"@)
    } else if s == "attn_q.weight"@ {
        Some("self_attn.q_proj.weight"@)
    } else if s == "attn_k.weight"@ {
        Some("self_attn.k_proj.weight"@)
    } else if s == "attn_v.weight"@ {
        Some("self_attn.v_proj.weight"@)
    } else if s == "attn_output.weight"@ {
        Some("self_attn.o_proj.weight"@)
    } else if s == "attn_q.bias"@ {
        Some("self_attn.q_proj.bias"@)
    } else if s == "attn_k.bias"@ {
        Some("self_attn.k_proj.bias"@)
    } else if s == "attn_v.bias"@ {
        Some("self_attn.v_proj.bias"@)
    } else if s == "ffn_norm.weight"@ {
        Some("post_attention_layernorm.weight"@)
    } else if s == "ffn_gate_inp.weight"@ {
        Some("mlp.gate.weight"@)
    } else if s == "exp_probs_b.bias"@ {
        Some("mlp.gate.e_score_correction_bias"@)
    } else if s == "ffn_gate_exps.weight"@ {
        Some("mlp.experts.gate_proj"@)
    } else if s == "ffn_up_exps.weight"@ {
        Some("mlp.experts.up_proj"@)
    } else if s == "ffn_down_exps.weight"@ {
        Some("mlp.experts.down_proj"@)
    } else if s == "ffn_gate_shexp.weight"@ {
        Some("mlp.shared_expert.gate_proj.weight"@)
    } else if s == "ffn_up_shexp.weight"@ {
        Some("mlp.shared_expert.up_proj.weight"@)
    } else if s == "ffn_down_shexp.weight"@ {
        Some("mlp.shared_expert.down_proj.weight"@)
    } else if s == "ffn_gate_inp_shexp.weight"@ {
        Some("mlp.shared_expert_gate.weight"@)
    } else if s == "ffn_gate.weight"@ {
        Some("mlp.gate_proj.weight"@)
    } else if s == "ffn_up.weight"@ {
        Some("mlp.up_proj.weight"@)
    } else if s == "ffn_down.weight"@ {
        Some("mlp.down_proj.weight"@)
    } else {
        None
    }
}

/// What GGUF calls a per-layer tensor that the engine names this way.
pub open spec fn ggml_suffix(t: Seq<char>) -> Option<Seq<char>> {
    if t == "input_layernorm.weight"@ {
        Some("attn_norm.weight"@)
    } else if t == "self_attn.q_norm.weight"@ {
        Some("attn_q_norm.weight"@)
    } else if t == "self_attn.k_norm.weight"@ {
        Some("attn_k_norm.weight"@)
    } else if t == "self_attn.q_proj.weight"@ {
        Some("attn_q.weight"@)
    } else if t == "self_attn.k_proj.weight"@ {
        Some("attn_k.weight"@)
    } else if t == "self_attn.v_proj.weight"@ {
        Some("attn_v.weight"@)
    } else if t == "self_attn.o_proj.weight"@ {
        Some("attn_output.weight"@)
    } else if t == "self_attn.q_proj.bias"@ {
        Some("attn_q.bias"@)
    } else if t == "self_attn.k_proj.bias"@ {
        Some("attn_k.bias"@)
    } else if t == "self_attn.v_proj.bias"@ {
        Some("attn_v.bias"@)
    } else if t == "post_attention_layernorm.weight"@ {
        Some("ffn_norm.weight"@)
    } else if t == "mlp.gate.weight"@ {
        Some("ffn_gate_inp.weight"@)
    } else if t == "mlp.gate.e_score_correction_bias"@ {
        Some("exp_probs_b.bias"@)
    } else if t == "mlp.experts.gate_proj"@ {
        Some("ffn_gate_exps.weight"@)
    } else if t == "mlp.experts.up_proj"@ {
        Some("ffn_up_exps.weight"@)
    } else if t == "mlp.experts.down_proj"@ {
        Some("ffn_down_exps.weight"@)
    } else if t == "mlp.shared_expert.gate_proj.weight"@ {
        Some("ffn_gate_shexp.weight"@)
    } else if t == "mlp.shared_expert.up_proj.weight"@ {
        Some("ffn_up_shexp.weight"@)
    } else if t == "mlp.shared_expert.down_proj.weight"@ {
        Some("ffn_down_shexp.weight"@)
    } else if t == "mlp.shared_expert_gate.weight"@ {
        Some("ffn_gate_inp_shexp.weight"@)
    } else if t == "mlp.gate_proj.weight"@ {
        Some("ffn_gate.weight"@)
    } else if t == "mlp.up_proj.weight"@ {
        Some("ffn_up.weight"@)
    } else if t == "mlp.down_proj.weight"@ {
        Some("ffn_down.weight"@)
    } else {
        None
    }
}

fn suffix_for(s: &str) -> (r: Option<&'static str>)
    ensures
        match r {
            Some(t) => engine_suffix(s@) == Some(t@),
            None => engine_suffix(s@) is None,
        },
{
    if same(s, "attn_norm.weight") {
        Some("input_layernorm.weight")
    } else if same(s, "attn_q_norm.weight") {
        Some("self_attn.q_norm.weight")
    } else if same(s, "attn_k_norm.weight") {
        Some("self_attn.k_norm.weight")
    } else if same(s, "attn_q.weight") {
        Some("self_attn.q_proj.weight")
    } else if same(s, "attn_k.weight") {
        Some("self_attn.k_proj.weight")
    } else if same(s, "attn_v.weight") {
        Some("self_attn.v_proj.weight")
    } else if same(s, "attn_output.weight") {
        Some("self_attn.o_proj.weight")
    } else if same(s, "attn_q.bias") {
        Some("self_attn.q_proj.bias")
    } else if same(s, "attn_k.bias") {
        Some("self_attn.k_proj.bias")
    } else if same(s, "attn_v.bias") {
        Some("self_attn.v_proj.bias")
    } else if same(s, "ffn_norm.weight") {
        Some("post_attention_layernorm.weight")
    } else if same(s, "ffn_gate_inp.weight") {
        Some("mlp.gate.weight")
    } else if same(s, "exp_probs_b.bias") {
        Some("mlp.gate.e_score_correction_bias")
    } else if same(s, "ffn_gate_exps.weight") {
        Some("mlp.experts.gate_proj")
    } else if same(s, "ffn_up_exps.weight") {
        Some("mlp.experts.up_proj")
    } else if same(s, "ffn_down_exps.weight") {
        Some("mlp.experts.down_proj")
    } else if same(s, "ffn_gate_shexp.weight") {
        Some("mlp.shared_expert.gate_proj.weight")
    } else if same(s, "ffn_up_shexp.weight") {
        Some("mlp.shared_expert.up_proj.weight")
    } else if same(s, "ffn_down_shexp.weight") {
        Some("mlp.shared_expert.down_proj.weight")
    } else if same(s, "ffn_gate_inp_shexp.weight") {
        Some("mlp.shared_expert_gate.weight")
    } else if same(s, "ffn_gate.weight") {
        Some("mlp.gate_proj.weight")
    } else if same(s, "ffn_up.weight") {
        Some("mlp.up_proj.weight")
    } else if same(s, "ffn_down.weight") {
        Some("mlp.down_proj.weight")
    } else {
        None
    }
}

proof fn lemma_suffixes_apart(s: Seq<char>)
    ensures
        engine_suffix(s) matches Some(t) ==> ggml_suffix(t) == Some(s),
{
    reveal_strlit("input_layernorm.weight");
    reveal_strlit("self_attn.q_norm.weight");
    reveal_strlit("self_attn.k_norm.weight");
    reveal_strlit("self_attn.q_proj.weight");
    reveal_strlit("self_attn.k_proj.weight");
    reveal_strlit("self_attn.v_proj.weight");
    reveal_strlit("self_attn.o_proj.weight");
    reveal_strlit("self_attn.q_proj.bias");
    reveal_strlit("self_attn.k_proj.bias");
    reveal_strlit("self_attn.v_proj.bias");
    reveal_strlit("post_attention_layernorm.weight");
    reveal_strlit("mlp.gate.weight");
    reveal_strlit("mlp.gate.e_score_correction_bias");
    reveal_strlit("mlp.experts.gate_proj");
    reveal_strlit("mlp.experts.up_proj");
    reveal_strlit("mlp.experts.down_proj");
    reveal_strlit("mlp.shared_expert.gate_proj.weight");
    reveal_strlit("mlp.shared_expert.up_proj.weight");
    reveal_strlit("mlp.shared_expert.down_proj.weight");
    reveal_strlit("mlp.shared_expert_gate.weight");
    reveal_strlit("mlp.gate_proj.weight");
    reveal_strlit("mlp.up_proj.weight");
    reveal_strlit("mlp.down_proj.weight");
    assert("input_layernorm.weight"@.len() == 22);
    assert("self_attn.q_norm.weight"@.len() == 23 && "self_attn.q_norm.weight"@[10] == 'q' && "self_attn.q_norm.weight"@[12] == 'n');
    assert("self_attn.k_norm.weight"@.len() == 23 && "self_attn.k_norm.weight"@[10] == 'k' && "self_attn.k_norm.weight"@[12] == 'n');
    assert("self_attn.q_proj.weight"@.len() == 23 && "self_attn.q_proj.weight"@[10] == 'q' && "self_attn.q_proj.weight"@[12] == 'p');
    assert("self_attn.k_proj.weight"@.len() == 23 && "self_attn.k_proj.weight"@[10] == 'k' && "self_attn.k_proj.weight"@[12] == 'p');
    assert("self_attn.v_proj.weight"@.len() == 23 && "self_attn.v_proj.weight"@[10] == 'v');
    assert("self_attn.o_proj.weight"@.len() == 23 && "self_attn.o_proj.weight"@[10] == 'o');
    assert("self_attn.q_proj.bias"@.len() == 21 && "self_attn.q_proj.bias"@[0] == 's' && "self_attn.q_proj.bias"@[10] == 'q');
    assert("self_attn.k_proj.bias"@.len() == 21 && "self_attn.k_proj.bias"@[0] == 's' && "self_attn.k_proj.bias"@[10] == 'k');
    assert("self_attn.v_proj.bias"@.len() == 21 && "self_attn.v_proj.bias"@[0] == 's' && "self_attn.v_proj.bias"@[10] == 'v');
    assert("post_attention_layernorm.weight"@.len() == 31);
    assert("mlp.gate.weight"@.len() == 15);
    assert("mlp.gate.e_score_correction_bias"@.len() == 32 && "mlp.gate.e_score_correction_bias"@[4] == 'g');
    assert("mlp.experts.gate_proj"@.len() == 21 && "mlp.experts.gate_proj"@[0] == 'm' && "mlp.experts.gate_proj"@[12] == 'g');
    assert("mlp.experts.up_proj"@.len() == 19);
    assert("mlp.experts.down_proj"@.len() == 21 && "mlp.experts.down_proj"@[0] == 'm' && "mlp.experts.down_proj"@[12] == 'd');
    assert("mlp.shared_expert.gate_proj.weight"@.len() == 34 && "mlp.shared_expert.gate_proj.weight"@[18] == 'g');
    assert("mlp.shared_expert.up_proj.weight"@.len() == 32 && "mlp.shared_expert.up_proj.weight"@[4] == 's');
    assert("mlp.shared_expert.down_proj.weight"@.len() == 34 && "mlp.shared_expert.down_proj.weight"@[18] == 'd');
    assert("mlp.shared_expert_gate.weight"@.len() == 29);
    assert("mlp.gate_proj.weight"@.len() == 20 && "mlp.gate_proj.weight"@[4] == 'g');
    assert("mlp.up_proj.weight"@.len() == 18);
    assert("mlp.down_proj.weight"@.len() == 20 && "mlp.down_proj.weight"@[4] == 'd');
}

/// What the engine calls a tensor of this GGUF name: none for tensors with no
/// counterpart, such as rope frequency tables, which the engine computes.
pub open spec fn renamed(name: Seq<char>) -> Option<Seq<char>> {
    if name == "token_embd.weight"@ {
        Some("model.embed_tokens.weight"@)
    } else if name == "output_norm.weight"@ {
        Some("model.norm.weight"@)
    } else if name == "output.weight"@ {
        Some("lm_head.weight"@)
    } else if !is_at(name, 0, "blk."@) {
        None
    } else {
        renamed_layer(name.subrange(4, name.len() as int))
    }
}

/// What the engine calls the tensor of a layer: a number, a dot, and a suffix.
pub open spec fn renamed_layer(rest: Seq<char>) -> Option<Seq<char>> {
    match first_at(rest, 0, "."@) {
        None => None,
        Some(i) => {
            let layer = rest.subrange(0, i);
            match (unsigned_of(layer, u32::MAX as nat), engine_suffix(rest.subrange(i + 1, rest.len() as int))) {
                (Some(_), Some(t)) => Some("model.layers."@ + layer + "."@ + t),
                _ => None,
            }
        },
    }
}

/// Rewrite a GGUF tensor name into the Hugging Face one the engine looks for.
pub fn rename(name: &str) -> (r: Option<String>)
    ensures
        match r {
            Some(s) => renamed(name@) == Some(s@),
            None => renamed(name@) is None,
        },
{
    if same(name, "token_embd.weight") {
        return Some("model.embed_tokens.weight".to_owned());
    }
    if same(name, "output_norm.weight") {
        return Some("model.norm.weight".to_owned());
    }
    if same(name, "output.weight") {
        return Some("lm_head.weight".to_owned());
    }
    proof {
        reveal_strlit("blk.");
        reveal_strlit(".");
    }
    let c = chars_of(name);
    if !at(c.as_slice(), 0, "blk.") {
        return None;
    }
    let rest = substring(c.as_slice(), 4, c.len());
    let c = chars_of(rest.as_str());
    match find(c.as_slice(), 0, ".") {
        None => None,
        Some(i) => {
            let layer = substring(c.as_slice(), 0, i);
            let suffix = substring(c.as_slice(), i + 1, c.len());
            match (parse_unsigned(layer.as_str(), u32::MAX as u64), suffix_for(suffix.as_str())) {
                (Some(_), Some(t)) => {
                    let head = join3("model.layers.", layer.as_str(), ".");
                    Some(join(head.as_str(), t))
                },
                _ => None,
            }
        },
    }
}

/// Nothing before the first dot is a dot.
proof fn lemma_no_dot(s: Seq<char>, from: int, k: int)
    requires
        0 <= from,
        first_at(s, from, "."@) matches Some(i) && from <= k < i,
    ensures
        s[k] != '.',
    decreases s.len() - from + 1,
{
    reveal_strlit(".");
    lemma_first_at(s, from, "."@);
    if k == from {
        if s[k] == '.' {
            assert(s.subrange(from, from + 1) =~= "."@);
        }
    } else {
        lemma_no_dot(s, from + 1, k);
    }
}

proof fn lemma_layers_apart(a: Seq<char>, b: Seq<char>)
    requires
        renamed_layer(a) is Some,
        renamed_layer(a) == renamed_layer(b),
    ensures
        a == b,
{
    reveal_strlit(".");
    reveal_strlit("model.layers.");
    lemma_first_at(a, 0, "."@);
    lemma_first_at(b, 0, "."@);
    let i = first_at(a, 0, "."@)->0;
    let j = first_at(b, 0, "."@)->0;
    assert(a[i] == a.subrange(i, i + 1)[0] && b[j] == b.subrange(j, j + 1)[0]);
    let s = a.subrange(i + 1, a.len() as int);
    let t = b.subrange(j + 1, b.len() as int);
    let x = renamed_layer(a)->0;
    assert(x[13 + i] == '.' && x[13 + j] == '.');
    if i < j {
        assert(x[13 + i] == b[i]);
        lemma_no_dot(b, 0, i);
    } else if j < i {
        assert(x[13 + j] == a[j]);
        lemma_no_dot(a, 0, j);
    }
    assert forall|k: int| 0 <= k < i implies a[k] == b[k] by {
        assert(x[13 + k] == a[k] && x[13 + k] == b[k]);
    }
    lemma_suffixes_apart(s);
    lemma_suffixes_apart(t);
    let u = engine_suffix(s)->0;
    let v = engine_suffix(t)->0;
    assert(u =~= x.subrange(14 + i, x.len() as int));
    assert(v =~= x.subrange(14 + i, x.len() as int));
    assert(s == t);
    assert(a =~= a.subrange(0, i) + a.subrange(i, i + 1) + s);
    assert(b =~= b.subrange(0, i) + b.subrange(i, i + 1) + t);
    assert(a =~= b);
}

/// No two tensors are given one name: what is renamed alike was named alike.
pub proof fn law_names_stay_apart(a: Seq<char>, b: Seq<char>)
    requires
        renamed(a) is Some,
        renamed(a) == renamed(b),
    ensures
        a == b,
{
    reveal_strlit("blk.");
    reveal_strlit("model.embed_tokens.weight");
    reveal_strlit("model.norm.weight");
    reveal_strlit("lm_head.weight");
    reveal_strlit("model.layers.");
    let x = renamed(a)->0;
    assert("model.embed_tokens.weight"@[6] == 'e' && "model.norm.weight"@[6] == 'n' && "lm_head.weight"@[0] == 'l');
    assert("model.embed_tokens.weight"@[0] == 'm' && "model.norm.weight"@[0] == 'm');
    if is_at(a, 0, "blk."@) && renamed_layer(a.subrange(4, a.len() as int)) == Some(x) {
        assert(x[6] == 'l' && x[0] == 'm');
    }
    if is_at(b, 0, "blk."@) && renamed_layer(b.subrange(4, b.len() as int)) == Some(x) {
        assert(x[6] == 'l' && x[0] == 'm');
    }
    if x != "model.embed_tokens.weight"@ && x != "model.norm.weight"@ && x != "lm_head.weight"@ {
        let p = a.subrange(4, a.len() as int);
        let q = b.subrange(4, b.len() as int);
        lemma_layers_apart(p, q);
        assert(a =~= a.subrange(0, 4) + p);
        assert(b =~= b.subrange(0, 4) + q);
    }
}

/// The name of a ggml type that cannot be read.
pub open spec fn ggml_name(t: u32) -> Seq<char> {
    if t == 3 {
        "Q4_1"@
    } else if t == 7 {
        "Q5_1"@
    } else if t == 9 {
        "Q8_1"@
    } else if t == 10 {
        "Q2_K"@
    } else if t == 11 {
        "Q3_K"@
    } else if t == 13 {
        "Q5_K"@
    } else if t == 15 {
        "Q8_K"@
    } else if 16 <= t <= 23 {
        "an IQ format"@
    } else if 24 <= t <= 29 {
        "an integer format"@
    } else if t == 31 {
        "TQ1_0"@
    } else if t == 32 {
        "TQ2_0"@
    } else {
        "an unrecognised format"@
    }
}

fn type_label(t: u32) -> (r: &'static str)
    ensures
        r@ == ggml_name(t),
{
    if t == 3 {
        "Q4_1"
    } else if t == 7 {
        "Q5_1"
    } else if t == 9 {
        "Q8_1"
    } else if t == 10 {
        "Q2_K"
    } else if t == 11 {
        "Q3_K"
    } else if t == 13 {
        "Q5_K"
    } else if t == 15 {
        "Q8_K"
    } else if 16 <= t && t <= 23 {
        "an IQ format"
    } else if 24 <= t && t <= 29 {
        "an integer format"
    } else if t == 31 {
        "TQ1_0"
    } else if t == 32 {
        "TQ2_0"
    } else {
        "an unrecognised format"
    }
}

impl FaultV {
    /// What is wrong, in words.
    pub open spec fn message(self) -> Seq<char> {
        match self {
            FaultV::NotGguf => "not a GGUF file"@,
            FaultV::Version(v) => "GGUF v"@ + decimal_of(v as nat) + "; this build reads v2 and v3"@,
            FaultV::Counts => "header counts exceed the file size"@,
            FaultV::Truncated(i) => "truncated at byte "@ + decimal_of(i as nat),
            FaultV::StringLength(n, m) => "a string claims "@ + decimal_of(n as nat) + " bytes in a "@ + (decimal_of(
                m as nat,
            ) + "-byte file"@),
            FaultV::ArrayLength(n, m) => "an array claims "@ + decimal_of(n as nat) + " elements in a "@ + (decimal_of(
                m as nat,
            ) + "-byte file"@),
            FaultV::Nested => "nested arrays are not supported"@,
            FaultV::Kind(k) => "unknown metadata type "@ + decimal_of(k as nat),
            FaultV::Dims(name, n) => name + " has "@ + (decimal_of(n as nat) + " dimensions"@),
            FaultV::Type(t) => "ggml type "@ + decimal_of(t as nat) + " ("@ + (ggml_name(t)
                + ") is not supported; the readable formats are F32, F16, BF16, Q4_0, Q5_0, Q8_0, Q4_K and Q6_K"@),
            FaultV::Overrun => "the header runs past the end of the file"@,
        }
    }
}

impl Fault {
    /// What is wrong, in words.
    pub fn message(&self) -> (r: String)
        ensures
            r@ == self@.message(),
    {
        match self {
            Fault::NotGguf => "not a GGUF file".to_owned(),
            Fault::Version(v) => join3(
                "GGUF v",
                decimal(*v as u64).as_str(),
                "; this build reads v2 and v3",
            ),
            Fault::Counts => "header counts exceed the file size".to_owned(),
            Fault::Truncated(i) => join("truncated at byte ", decimal(*i as u64).as_str()),
            Fault::StringLength(n, m) => {
                let head = join3("a string claims ", decimal(*n as u64).as_str(), " bytes in a ");
                let tail = join(decimal(*m as u64).as_str(), "-byte file");
                join(head.as_str(), tail.as_str())
            },
            Fault::ArrayLength(n, m) => {
                let head = join3("an array claims ", decimal(*n as u64).as_str(), " elements in a ");
                let tail = join(decimal(*m as u64).as_str(), "-byte file");
                join(head.as_str(), tail.as_str())
            },
            Fault::Nested => "nested arrays are not supported".to_owned(),
            Fault::Kind(k) => join("unknown metadata type ", decimal(*k as u64).as_str()),
            Fault::Dims(name, n) => {
                let tail = join(decimal(*n as u64).as_str(), " dimensions");
                join3(name.as_str(), " has ", tail.as_str())
            },
            Fault::Type(t) => {
                let head = join3("ggml type ", decimal(*t as u64).as_str(), " (");
                let tail = join(
                    type_label(*t),
                    ") is not supported; the readable formats are F32, F16, BF16, Q4_0, Q5_0, Q8_0, Q4_K and Q6_K",
                );
                join(head.as_str(), tail.as_str())
            },
            Fault::Overrun => "the header runs past the end of the file".to_owned(),
        }
    }
}

proof fn lemma_prefix_string(b: Seq<u8>, n: int, i: int)
    requires
        0 <= n <= b.len(),
        0 <= i,
        string_at(b.take(n), i) is Ok,
    ensures
        string_at(b, i) == string_at(b.take(n), i),
        i <= string_at(b, i)->Ok_0.1,
{
    let a = b.take(n);
    let (m, j) = u64_at(a, i)->Ok_0;
    let k = j + m as usize;
    assert(a.subrange(j, k) =~= b.subrange(j, k));
}

proof fn lemma_prefix_scalar(b: Seq<u8>, n: int, i: int, kind: u32)
    requires
        0 <= n <= b.len(),
        0 <= i,
        scalar_at(b.take(n), i, kind) is Ok,
    ensures
        scalar_at(b, i, kind) == scalar_at(b.take(n), i, kind),
        i <= scalar_at(b, i, kind)->Ok_0.1,
{
    if kind == 8 {
        lemma_prefix_string(b, n, i);
    }
}

proof fn lemma_prefix_scalars(b: Seq<u8>, n: int, i: int, kind: u32, c: nat)
    requires
        0 <= n <= b.len(),
        0 <= i,
        scalars_at(b.take(n), i, kind, c) is Ok,
    ensures
        scalars_at(b, i, kind, c) == scalars_at(b.take(n), i, kind, c),
        i <= scalars_at(b, i, kind, c)->Ok_0.1,
    decreases c,
{
    if c > 0 {
        lemma_prefix_scalars(b, n, i, kind, (c - 1) as nat);
        lemma_prefix_scalar(b, n, scalars_at(b, i, kind, (c - 1) as nat)->Ok_0.1, kind);
    }
}

proof fn lemma_prefix_value(b: Seq<u8>, n: int, i: int, kind: u32)
    requires
        0 <= n <= b.len(),
        0 <= i,
        value_at(b.take(n), i, kind) is Ok,
    ensures
        value_at(b, i, kind) == value_at(b.take(n), i, kind),
        i <= value_at(b, i, kind)->Ok_0.1,
{
    let a = b.take(n);
    if kind == 9 {
        let (elem, j) = u32_at(a, i)->Ok_0;
        let (m, k) = u64_at(a, j)->Ok_0;
        lemma_prefix_scalars(b, n, k, elem, m as usize as nat);
    } else {
        lemma_prefix_scalar(b, n, i, kind);
    }
}

proof fn lemma_prefix_entry(b: Seq<u8>, n: int, i: int)
    requires
        0 <= n <= b.len(),
        0 <= i,
        entry_at(b.take(n), i) is Ok,
    ensures
        entry_at(b, i) == entry_at(b.take(n), i),
        i <= entry_at(b, i)->Ok_0.1,
{
    let a = b.take(n);
    lemma_prefix_string(b, n, i);
    let (_, j) = string_at(a, i)->Ok_0;
    let (kind, k) = u32_at(a, j)->Ok_0;
    lemma_prefix_value(b, n, k, kind);
}

proof fn lemma_prefix_entries(b: Seq<u8>, n: int, i: int, c: nat)
    requires
        0 <= n <= b.len(),
        0 <= i,
        entries_at(b.take(n), i, c) is Ok,
    ensures
        entries_at(b, i, c) == entries_at(b.take(n), i, c),
        i <= entries_at(b, i, c)->Ok_0.1,
    decreases c,
{
    if c > 0 {
        lemma_prefix_entries(b, n, i, (c - 1) as nat);
        lemma_prefix_entry(b, n, entries_at(b, i, (c - 1) as nat)->Ok_0.1);
    }
}

proof fn lemma_prefix_dims(b: Seq<u8>, n: int, i: int, c: nat)
    requires
        0 <= n <= b.len(),
        0 <= i,
        dims_at(b.take(n), i, c) is Ok,
    ensures
        dims_at(b, i, c) == dims_at(b.take(n), i, c),
        i <= dims_at(b, i, c)->Ok_0.1,
        dims_at(b, i, c)->Ok_0.0.len() == c,
    decreases c,
{
    if c > 0 {
        lemma_prefix_dims(b, n, i, (c - 1) as nat);
    }
}

proof fn lemma_prefix_tensor(b: Seq<u8>, n: int, i: int)
    requires
        0 <= n <= b.len(),
        0 <= i,
        tensor_at(b.take(n), i) is Ok,
    ensures
        tensor_at(b, i) == tensor_at(b.take(n), i),
        i <= tensor_at(b, i)->Ok_0.1,
        1 <= tensor_at(b, i)->Ok_0.0.shape.len() <= 4,
{
    let a = b.take(n);
    lemma_prefix_string(b, n, i);
    let (_, j) = string_at(a, i)->Ok_0;
    let (dims, k) = u32_at(a, j)->Ok_0;
    lemma_prefix_dims(b, n, k, dims as nat);
}

proof fn lemma_prefix_tensors(b: Seq<u8>, n: int, i: int, c: nat)
    requires
        0 <= n <= b.len(),
        0 <= i,
        tensors_at(b.take(n), i, c) is Ok,
    ensures
        tensors_at(b, i, c) == tensors_at(b.take(n), i, c),
        i <= tensors_at(b, i, c)->Ok_0.1,
        forall|k: int|
            0 <= k < tensors_at(b, i, c)->Ok_0.0.len() ==> 1 <= (#[trigger] tensors_at(
                b,
                i,
                c,
            )->Ok_0.0[k]).shape.len() <= 4,
    decreases c,
{
    if c > 0 {
        lemma_prefix_tensors(b, n, i, (c - 1) as nat);
        lemma_prefix_tensor(b, n, tensors_at(b, i, (c - 1) as nat)->Ok_0.1);
    }
}

/// What a file that is cut short still reads as, it read as before the cut: a cut
/// never changes what is read, it only refuses it.
pub proof fn law_cutting_changes_nothing(b: Seq<u8>, n: int)
    requires
        0 <= n <= b.len(),
        parsed(b.take(n)) is Ok,
    ensures
        parsed(b) == parsed(b.take(n)),
{
    let a = b.take(n);
    let (_, i) = u32_at(a, 4)->Ok_0;
    let (n_tensors, j) = u64_at(a, i)->Ok_0;
    let (n_meta, k) = u64_at(a, j)->Ok_0;
    lemma_prefix_entries(b, n, k, n_meta as usize as nat);
    let (meta, l) = entries_at(a, k, n_meta as usize as nat)->Ok_0;
    lemma_prefix_tensors(b, n, l, n_tensors as usize as nat);
}

/// A file cut anywhere before its data is refused.
pub proof fn law_truncation_is_refused(b: Seq<u8>, n: int)
    requires
        parsed(b) is Ok,
        0 <= n < parsed(b)->Ok_0.data,
        n <= b.len(),
    ensures
        parsed(b.take(n)) is Err,
{
    if parsed(b.take(n)) is Ok {
        law_cutting_changes_nothing(b, n);
    }
}

/// Every tensor that is read has one to four dimensions, and the data begins
/// inside the file.
pub proof fn law_header_is_bounded(b: Seq<u8>, t: int)
    requires
        parsed(b) is Ok,
    ensures
        4 <= parsed(b)->Ok_0.data <= b.len(),
        0 <= t < parsed(b)->Ok_0.tensors.len() ==> 1 <= parsed(b)->Ok_0.tensors[t].shape.len() <= 4,
{
    assert(b.take(b.len() as int) =~= b);
    let n = b.len() as int;
    let (_, i) = u32_at(b, 4)->Ok_0;
    let (n_tensors, j) = u64_at(b, i)->Ok_0;
    let (n_meta, k) = u64_at(b, j)->Ok_0;
    lemma_prefix_entries(b, n, k, n_meta as usize as nat);
    let (meta, l) = entries_at(b, k, n_meta as usize as nat)->Ok_0;
    lemma_prefix_tensors(b, n, l, n_tensors as usize as nat);
    let end = tensors_at(b, l, n_tensors as usize as nat)->Ok_0.1;
    assert(alignment(meta) >= 1);
    assert(aligned(end, alignment(meta)) >= end) by (nonlinear_arith)
        requires
            alignment(meta) >= 1,
    {
        assert(0 <= end % alignment(meta) < alignment(meta));
    }
}

} // verus!
