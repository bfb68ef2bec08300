//! JSON documents as plain values.
//!
//! What the library reads of a configuration, a schema or a request body is this type.
//! A number keeps the form it was read in: a
//! whole number, or the bits of a double together with its shortest decimal text.

use vstd::prelude::*;
use crate::float::Real;
use vstd::string::*;
use crate::text::{decimal, decimal_of, same, signed, signed_of};

verus! {

/// A number as the document wrote it.
#[derive(Debug)]
pub enum Number {
    /// A whole number that is not negative.
    Pos(u64),
    /// A negative whole number.
    Neg(i64),
    /// Anything else: the bits of the double, and its decimal text.
    Float(u64, String),
}

/// A JSON value. An object keeps its entries in the order of its map.
#[derive(Debug)]
pub enum Json {
    Null,
    Bool(bool),
    Num(Number),
    Str(String),
    Arr(Vec<Json>),
    Obj(Vec<(String, Json)>),
}

/// What a [`Number`] holds.
pub enum NumberV {
    Pos(u64),
    Neg(i64),
    Float(u64, Seq<char>),
}

/// What a [`Json`] holds.
pub enum JsonV {
    Null,
    Bool(bool),
    Num(NumberV),
    Str(Seq<char>),
    Arr(Seq<JsonV>),
    Obj(Seq<(Seq<char>, JsonV)>),
}

impl View for Number {
    type V = NumberV;

    open spec fn view(&self) -> NumberV {
        match *self {
            Number::Pos(n) => NumberV::Pos(n),
            Number::Neg(n) => NumberV::Neg(n),
            Number::Float(b, t) => NumberV::Float(b, t@),
        }
    }
}

/// What a JSON value holds.
pub open spec fn value_view(j: Json) -> JsonV
    decreases j,
{
    match j {
        Json::Null => JsonV::Null,
        Json::Bool(b) => JsonV::Bool(b),
        Json::Num(n) => JsonV::Num(n@),
        Json::Str(s) => JsonV::Str(s@),
        Json::Arr(v) => JsonV::Arr(
            Seq::new(v@.len(), |i: int| if 0 <= i < v@.len() { value_view(v@[i]) } else { JsonV::Null }),
        ),
        Json::Obj(v) => JsonV::Obj(
            Seq::new(
                v@.len(),
                |i: int| if 0 <= i < v@.len() { (v@[i].0@, value_view(v@[i].1)) } else { (Seq::empty(), JsonV::Null) },
            ),
        ),
    }
}

impl View for Json {
    type V = JsonV;

    open spec fn view(&self) -> JsonV {
        value_view(*self)
    }
}

/// The first entry at or after `from` under `key`.
pub open spec fn entry_from(m: Seq<(Seq<char>, JsonV)>, key: Seq<char>, from: int) -> Option<JsonV>
    decreases m.len() - from,
{
    if from < 0 || from >= m.len() {
        None
    } else if m[from].0 == key {
        Some(m[from].1)
    } else {
        entry_from(m, key, from + 1)
    }
}

/// The elements of a value that is an array, and none of any other.
pub open spec fn elements(v: JsonV) -> Seq<JsonV> {
    match v {
        JsonV::Arr(a) => a,
        _ => Seq::empty(),
    }
}

/// The entries of a value that is an object, and none of any other.
pub open spec fn entries(v: JsonV) -> Seq<(Seq<char>, JsonV)> {
    match v {
        JsonV::Obj(m) => m,
        _ => Seq::empty(),
    }
}

impl JsonV {
    /// The value under `key`, where this is an object that has it.
    pub open spec fn get(self, key: Seq<char>) -> Option<JsonV> {
        match self {
            JsonV::Obj(m) => entry_from(m, key, 0),
            _ => None,
        }
    }

    /// The value under `key`, or null.
    pub open spec fn field(self, key: Seq<char>) -> JsonV {
        match self.get(key) {
            Some(v) => v,
            None => JsonV::Null,
        }
    }

    pub open spec fn as_str(self) -> Option<Seq<char>> {
        match self {
            JsonV::Str(s) => Some(s),
            _ => None,
        }
    }

    pub open spec fn as_u64(self) -> Option<u64> {
        match self {
            JsonV::Num(NumberV::Pos(n)) => Some(n),
            _ => None,
        }
    }

    pub open spec fn as_i64(self) -> Option<i64> {
        match self {
            JsonV::Num(NumberV::Pos(n)) => if n <= i64::MAX { Some(n as i64) } else { None },
            JsonV::Num(NumberV::Neg(n)) => Some(n),
            _ => None,
        }
    }

    /// The value as a floating-point number, where it is a number.
    pub open spec fn as_real(self) -> Option<Real> {
        match self {
            JsonV::Num(NumberV::Pos(n)) => Some(Real::Pos(n)),
            JsonV::Num(NumberV::Neg(n)) => Some(Real::Neg(n)),
            JsonV::Num(NumberV::Float(b, _)) => Some(Real::Bits(b)),
            _ => None,
        }
    }

    pub open spec fn as_bool(self) -> Option<bool> {
        match self {
            JsonV::Bool(b) => Some(b),
            _ => None,
        }
    }

    pub open spec fn as_array(self) -> Option<Seq<JsonV>> {
        match self {
            JsonV::Arr(v) => Some(v),
            _ => None,
        }
    }

    pub open spec fn as_object(self) -> Option<Seq<(Seq<char>, JsonV)>> {
        match self {
            JsonV::Obj(m) => Some(m),
            _ => None,
        }
    }
}

/// A hexadecimal digit, in lower case.
pub open spec fn hex_digit(d: int) -> char {
    if d < 10 {
        (48 + d) as char
    } else {
        (87 + d) as char
    }
}

/// How a character stands inside a JSON string.
pub open spec fn escaped(c: char) -> Seq<char> {
    if c == '"' {
        seq!['\\', '"']
    } else if c == '\\' {
        seq!['\\', '\\']
    } else if c == '\n' {
        seq!['\\', 'n']
    } else if c == '\r' {
        seq!['\\', 'r']
    } else if c == '\t' {
        seq!['\\', 't']
    } else if c as int == 8 {
        seq!['\\', 'b']
    } else if c as int == 12 {
        seq!['\\', 'f']
    } else if (c as int) < 32 {
        seq!['\\', 'u', '0', '0', hex_digit(c as int / 16), hex_digit(c as int % 16)]
    } else {
        seq![c]
    }
}

/// The characters of a string, each as it stands inside a JSON string.
pub open spec fn escaped_all(s: Seq<char>) -> Seq<char>
    decreases s.len(),
{
    if s.len() == 0 {
        Seq::empty()
    } else {
        escaped_all(s.drop_last()) + escaped(s.last())
    }
}

/// A string in quotes, as JSON writes it.
pub open spec fn quoted(s: Seq<char>) -> Seq<char> {
    seq!['"'] + escaped_all(s) + seq!['"']
}

/// `serde_json::Value::to_string` on a string: the text in quotes, with the
/// quote, the backslash and every control character below the space escaped.
#[verifier::external_body]
pub(crate) fn quote(s: &str) -> (r: String)
    ensures
        r@ == quoted(s@),
{
    serde_json::Value::String(s.to_owned()).to_string()
}

impl NumberV {
    /// The number as JSON writes it.
    pub open spec fn text(self) -> Seq<char> {
        match self {
            NumberV::Pos(n) => decimal_of(n as nat),
            NumberV::Neg(n) => signed_of(n as int),
            NumberV::Float(_, t) => t,
        }
    }
}

/// The compact text of a JSON value.
pub open spec fn text_of(j: JsonV) -> Seq<char>
    decreases j, 0nat,
{
    match j {
        JsonV::Null => "null"@,
        JsonV::Bool(b) => if b { "true"@ } else { "false"@ },
        JsonV::Num(n) => n.text(),
        JsonV::Str(s) => quoted(s),
        JsonV::Arr(v) => seq!['['] + items_text(v, v.len()) + seq![']'],
        JsonV::Obj(m) => seq!['{'] + entries_text(m, m.len()) + seq!['}'],
    }
}

/// The texts of the first `n` elements, with commas between them.
pub open spec fn items_text(v: Seq<JsonV>, n: nat) -> Seq<char>
    decreases v, n,
{
    if n == 0 || n > v.len() {
        Seq::empty()
    } else if n == 1 {
        text_of(v[0])
    } else {
        items_text(v, (n - 1) as nat) + seq![','] + text_of(v[n - 1])
    }
}

/// The texts of the first `n` entries, with commas between them.
pub open spec fn entries_text(m: Seq<(Seq<char>, JsonV)>, n: nat) -> Seq<char>
    decreases m, n,
{
    if n == 0 || n > m.len() {
        Seq::empty()
    } else {
        let entry = quoted(m[n - 1].0) + seq![':'] + text_of(m[n - 1].1);
        if n == 1 {
            entry
        } else {
            entries_text(m, (n - 1) as nat) + seq![','] + entry
        }
    }
}

impl Number {
    /// The number as JSON writes it.
    pub fn text(&self) -> (r: String)
        ensures
            r@ == self@.text(),
    {
        match self {
            Number::Pos(n) => decimal(*n),
            Number::Neg(n) => signed(*n),
            Number::Float(_, t) => t.clone(),
        }
    }
}

impl Json {
    /// The compact text of the value.
    pub fn text(&self) -> (r: String)
        ensures
            r@ == text_of(self@),
        decreases self,
    {
        match self {
            Json::Null => "null".to_owned(),
            Json::Bool(b) => if *b { "true".to_owned() } else { "false".to_owned() },
            Json::Num(n) => n.text(),
            Json::Str(s) => quote(s.as_str()),
            Json::Arr(v) => {
                let mut out = String::new();
                out.push('[');
                let mut i: usize = 0;
                let ghost vv = self@->Arr_0;
                while i < v.len()
                    invariant
                        i <= v.len(),
                        *self == Json::Arr(*v),
                        self@ == JsonV::Arr(vv),
                        vv.len() == v@.len(),
                        out@ == seq!['['] + items_text(vv, i as nat),
                    decreases v.len() - i,
                {
                    assert(decreases_to!(*self => self->Arr_0));
                    assert(decreases_to!(v => v@));
                    assert(decreases_to!(v@ => v@[i as int]));
                    assert(vv[i as int] == v@[i as int]@);
                    let t = v[i].text();
                    if i > 0 {
                        out.push(',');
                    }
                    out.append(t.as_str());
                    i += 1;
                    assert(out@ =~= seq!['['] + items_text(vv, i as nat));
                }
                out.push(']');
                assert(out@ =~= text_of(self@));
                out
            },
            Json::Obj(m) => {
                let mut out = String::new();
                out.push('{');
                let mut i: usize = 0;
                let ghost mv = self@->Obj_0;
                while i < m.len()
                    invariant
                        i <= m.len(),
                        *self == Json::Obj(*m),
                        self@ == JsonV::Obj(mv),
                        mv.len() == m@.len(),
                        out@ == seq!['{'] + entries_text(mv, i as nat),
                    decreases m.len() - i,
                {
                    assert(decreases_to!(*self => self->Obj_0));
                    assert(decreases_to!(m => m@));
                    assert(decreases_to!(m@ => m@[i as int]));
                    assert(decreases_to!(m@[i as int] => m@[i as int].1));
                    assert(mv[i as int] == (m@[i as int].0@, m@[i as int].1@));
                    let k = quote(m[i].0.as_str());
                    let t = m[i].1.text();
                    if i > 0 {
                        out.push(',');
                    }
                    out.append(k.as_str());
                    out.push(':');
                    out.append(t.as_str());
                    i += 1;
                    assert(out@ =~= seq!['{'] + entries_text(mv, i as nat));
                }
                out.push('}');
                assert(out@ =~= text_of(self@));
                out
            },
        }
    }
}

impl Json {
    /// The value under `key`, where this is an object that has it.
    pub fn get(&self, key: &str) -> (r: Option<&Json>)
        ensures
            match r {
                Some(v) => self@.get(key@) == Some(v@),
                None => self@.get(key@) is None,
            },
    {
        match self {
            Json::Obj(m) => {
                let mut i: usize = 0;
                let ghost mv = self@->Obj_0;
                while i < m.len()
                    invariant
                        i <= m.len(),
                        *self == Json::Obj(*m),
                        mv == self@->Obj_0,
                        self@ is Obj,
                        mv.len() == m@.len(),
                        self@.get(key@) == entry_from(mv, key@, i as int),
                    decreases m.len() - i,
                {
                    assert(mv[i as int] == (m@[i as int].0@, m@[i as int].1@));
                    if same(m[i].0.as_str(), key) {
                        return Some(&m[i].1);
                    }
                    i += 1;
                }
                None
            },
            _ => None,
        }
    }

    /// The value under `key`, or null.
    pub fn field(&self, key: &str) -> (r: &Json)
        ensures
            r@ == self@.field(key@),
    {
        match self.get(key) {
            Some(v) => v,
            None => &Json::Null,
        }
    }

    pub fn as_str(&self) -> (r: Option<&str>)
        ensures
            match r {
                Some(s) => self@.as_str() == Some(s@),
                None => self@.as_str() is None,
            },
    {
        match self {
            Json::Str(s) => Some(s.as_str()),
            _ => None,
        }
    }

    pub fn as_u64(&self) -> (r: Option<u64>)
        ensures
            r == self@.as_u64(),
    {
        match self {
            Json::Num(Number::Pos(n)) => Some(*n),
            _ => None,
        }
    }

    pub fn as_i64(&self) -> (r: Option<i64>)
        ensures
            r == self@.as_i64(),
    {
        match self {
            Json::Num(Number::Pos(n)) => if *n <= i64::MAX as u64 { Some(*n as i64) } else { None },
            Json::Num(Number::Neg(n)) => Some(*n),
            _ => None,
        }
    }

    pub fn as_real(&self) -> (r: Option<Real>)
        ensures
            r == self@.as_real(),
    {
        match self {
            Json::Num(Number::Pos(n)) => Some(Real::Pos(*n)),
            Json::Num(Number::Neg(n)) => Some(Real::Neg(*n)),
            Json::Num(Number::Float(b, _)) => Some(Real::Bits(*b)),
            _ => None,
        }
    }

    pub fn as_bool(&self) -> (r: Option<bool>)
        ensures
            r == self@.as_bool(),
    {
        match self {
            Json::Bool(b) => Some(*b),
            _ => None,
        }
    }

    pub fn as_array(&self) -> (r: Option<&Vec<Json>>)
        ensures
            match r {
                Some(v) => *self == Json::Arr(*v),
                None => self@.as_array() is None,
            },
    {
        match self {
            Json::Arr(v) => Some(v),
            _ => None,
        }
    }

    /// How many elements the array has; none where this is no array.
    pub fn count(&self) -> (n: usize)
        ensures
            n == elements(self@).len(),
    {
        match self {
            Json::Arr(v) => v.len(),
            _ => 0,
        }
    }

    /// The element at `i`.
    pub fn item(&self, i: usize) -> (r: &Json)
        requires
            i < elements(self@).len(),
        ensures
            r@ == elements(self@)[i as int],
    {
        match self {
            Json::Arr(v) => &v[i],
            _ => self,
        }
    }

    /// How many entries the object has; none where this is no object.
    pub fn size(&self) -> (n: usize)
        ensures
            n == entries(self@).len(),
    {
        match self {
            Json::Obj(m) => m.len(),
            _ => 0,
        }
    }

    /// The key of entry `i`.
    pub fn key(&self, i: usize) -> (r: &str)
        requires
            i < entries(self@).len(),
        ensures
            r@ == entries(self@)[i as int].0,
    {
        match self {
            Json::Obj(m) => m[i].0.as_str(),
            _ => "",
        }
    }

    /// The value of entry `i`.
    pub fn value(&self, i: usize) -> (r: &Json)
        requires
            i < entries(self@).len(),
        ensures
            r@ == entries(self@)[i as int].1,
    {
        match self {
            Json::Obj(m) => &m[i].1,
            _ => self,
        }
    }

    /// Whether this is the string `s`.
    pub fn is_str(&self, s: &str) -> (r: bool)
        ensures
            r == (self@.as_str() == Some(s@)),
    {
        match self {
            Json::Str(t) => same(t.as_str(), s),
            _ => false,
        }
    }

    pub fn as_object(&self) -> (r: Option<&Vec<(String, Json)>>)
        ensures
            match r {
                Some(m) => *self == Json::Obj(*m),
                None => self@.as_object() is None,
            },
    {
        match self {
            Json::Obj(m) => Some(m),
            _ => None,
        }
    }

    /// A copy that holds the same value.
    pub fn copy(&self) -> (r: Json)
        ensures
            r@ == self@,
        decreases self,
    {
        match self {
            Json::Null => Json::Null,
            Json::Bool(b) => Json::Bool(*b),
            Json::Num(Number::Pos(n)) => Json::Num(Number::Pos(*n)),
            Json::Num(Number::Neg(n)) => Json::Num(Number::Neg(*n)),
            Json::Num(Number::Float(b, t)) => Json::Num(Number::Float(*b, t.clone())),
            Json::Str(s) => Json::Str(s.clone()),
            Json::Arr(v) => {
                let mut out: Vec<Json> = Vec::new();
                let mut i: usize = 0;
                while i < v.len()
                    invariant
                        i <= v.len(),
                        *self == Json::Arr(*v),
                        out.len() == i,
                        forall|k: int| 0 <= k < i ==> out@[k]@ == (#[trigger] v@[k])@,
                    decreases v.len() - i,
                {
                    assert(decreases_to!(*self => self->Arr_0));
                    assert(decreases_to!(v => v@));
                    assert(decreases_to!(v@ => v@[i as int]));
                    out.push(v[i].copy());
                    i += 1;
                }
                let r = Json::Arr(out);
                assert(r@->Arr_0 =~= self@->Arr_0);
                r
            },
            Json::Obj(v) => {
                let mut out: Vec<(String, Json)> = Vec::new();
                let mut i: usize = 0;
                while i < v.len()
                    invariant
                        i <= v.len(),
                        *self == Json::Obj(*v),
                        out.len() == i,
                        forall|k: int| 0 <= k < i ==> out@[k].0@ == (#[trigger] v@[k]).0@ && out@[k].1@ == v@[k].1@,
                    decreases v.len() - i,
                {
                    assert(decreases_to!(*self => self->Obj_0));
                    assert(decreases_to!(v => v@));
                    assert(decreases_to!(v@ => v@[i as int]));
                    assert(decreases_to!(v@[i as int] => v@[i as int].1));
                    out.push((v[i].0.clone(), v[i].1.copy()));
                    i += 1;
                }
                let r = Json::Obj(out);
                assert(r@->Obj_0 =~= self@->Obj_0);
                r
            },
        }
    }
}

/// What the entries of an object hold.
pub open spec fn entry_views(v: Seq<(String, Json)>) -> Seq<(Seq<char>, JsonV)> {
    Seq::new(v.len(), |i: int| (v[i].0@, v[i].1@))
}

/// What the elements of an array hold.
pub open spec fn item_views(v: Seq<Json>) -> Seq<JsonV> {
    Seq::new(v.len(), |i: int| v[i]@)
}

/// An object of these entries.
pub fn object(v: Vec<(String, Json)>) -> (r: Json)
    ensures
        r@ == JsonV::Obj(entry_views(v@)),
{
    let r: Json = Json::Obj(v);
    assert(r@->Obj_0 =~= entry_views(v@));
    r
}

/// An array of these elements.
pub fn array(v: Vec<Json>) -> (r: Json)
    ensures
        r@ == JsonV::Arr(item_views(v@)),
{
    let r: Json = Json::Arr(v);
    assert(r@->Arr_0 =~= item_views(v@));
    r
}

/// A text.
pub fn string(s: &str) -> (r: Json)
    ensures
        r@ == JsonV::Str(s@),
{
    Json::Str(s.to_owned())
}

/// A whole number.
pub fn number(n: u64) -> (r: Json)
    ensures
        r@ == JsonV::Num(NumberV::Pos(n)),
{
    Json::Num(Number::Pos(n))
}

/// Add an entry to an object in the making.
pub fn put(v: &mut Vec<(String, Json)>, key: &str, x: Json)
    ensures
        entry_views(final(v)@) == entry_views(old(v)@).push((key@, x@)),
{
    v.push((key.to_owned(), x));
    assert(entry_views(v@) =~= entry_views(old(v)@).push((key@, x@)));
}

/// Add an element to an array in the making.
pub fn add_item(v: &mut Vec<Json>, x: Json)
    ensures
        item_views(final(v)@) == item_views(old(v)@).push(x@),
{
    v.push(x);
    assert(item_views(v@) =~= item_views(old(v)@).push(x@));
}

} // verus!
