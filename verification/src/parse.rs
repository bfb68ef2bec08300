//! JSON text, read by `serde_json` and held as [`Json`].
//!
//! `serde_json` does the reading; its document is then walked, node by node, into the
//! library's own type.

use crate::json::{Json, JsonV, Number, NumberV};
use crate::text::join3;
use vstd::prelude::*;

verus! {

/// A document as `serde_json` holds it.
#[verifier::external_type_specification]
#[verifier::external_body]
pub struct ExValue(serde_json::Value);

/// What `serde_json::from_slice` reads from a text: the document, or in words why the text
/// is none.
pub uninterp spec fn parsed(text: Seq<u8>) -> Result<JsonV, Seq<char>>;

/// What a `serde_json::Value` holds, down to its leaves.
pub uninterp spec fn document(v: serde_json::Value) -> JsonV;

/// The outermost node of a document.
pub enum Part<'a> {
    Null,
    Bool(bool),
    /// A number: as a whole number that is not negative, as a signed one, as the bits of a
    /// double, and in decimal.
    Num(Option<u64>, Option<i64>, Option<u64>, String),
    Str(String),
    Arr(&'a Vec<serde_json::Value>),
    Obj(Vec<(&'a String, &'a serde_json::Value)>),
}

/// A number from the forms that it has: whole where it can be, else a double.
pub open spec fn number_from(whole: Option<u64>, signed: Option<i64>, bits: Option<u64>, text: Seq<char>) -> NumberV {
    match (whole, signed, bits) {
        (Some(n), _, _) => NumberV::Pos(n),
        (None, Some(n), _) => NumberV::Neg(n),
        (None, None, Some(b)) => NumberV::Float(b, text),
        (None, None, None) => NumberV::Float(0, text),
    }
}

impl<'a> Part<'a> {
    /// The document whose outermost node this is.
    pub open spec fn whole(self) -> JsonV {
        match self {
            Part::Null => JsonV::Null,
            Part::Bool(b) => JsonV::Bool(b),
            Part::Num(whole, signed, bits, text) => JsonV::Num(number_from(whole, signed, bits, text@)),
            Part::Str(s) => JsonV::Str(s@),
            Part::Arr(a) => JsonV::Arr(Seq::new(a@.len(), |i: int| document(a@[i]))),
            Part::Obj(m) => JsonV::Obj(Seq::new(m@.len(), |i: int| (m@[i].0@, document(*m@[i].1)))),
        }
    }
}

/// `serde_json::from_slice` into a `serde_json::Value`, an error being turned into its
/// text: a function of the bytes alone. What it reads from given bytes is not said here.
#[verifier::external_body]
fn read(text: &[u8]) -> (r: Result<serde_json::Value, String>)
    ensures
        match r {
            Ok(v) => parsed(text@) == Ok::<JsonV, Seq<char>>(document(v)),
            Err(e) => parsed(text@) == Err::<JsonV, Seq<char>>(e@),
        },
{
    serde_json::from_slice(text).map_err(|e| e.to_string())
}

/// The variants of `serde_json::Value` told apart, with what each of them holds. The
/// entries of an object come in the order in which its map is walked. Of a number,
/// `Number::as_u64`, `as_i64`, `as_f64` and its text are handed out.
#[verifier::external_body]
fn open<'a>(v: &'a serde_json::Value) -> (r: Part<'a>)
    ensures
        document(*v) == r.whole(),
{
    match v {
        serde_json::Value::Null => Part::Null,
        serde_json::Value::Bool(b) => Part::Bool(*b),
        serde_json::Value::Number(n) => {
            Part::Num(n.as_u64(), n.as_i64(), n.as_f64().map(|x| x.to_bits()), n.to_string())
        },
        serde_json::Value::String(s) => Part::Str(s.clone()),
        serde_json::Value::Array(a) => Part::Arr(a),
        serde_json::Value::Object(m) => Part::Obj(m.iter().collect()),
    }
}

/// A document in the library's own type.
fn held(v: &serde_json::Value) -> (r: Json)
    ensures
        r@ == document(*v),
    decreases document(*v),
{
    match open(v) {
        Part::Null => Json::Null,
        Part::Bool(b) => Json::Bool(b),
        Part::Num(whole, signed, bits, text) => Json::Num(
            match (whole, signed, bits) {
                (Some(n), _, _) => Number::Pos(n),
                (None, Some(n), _) => Number::Neg(n),
                (None, None, Some(b)) => Number::Float(b, text),
                (None, None, None) => Number::Float(0, text),
            },
        ),
        Part::Str(s) => Json::Str(s),
        Part::Arr(a) => {
            let ghost all = document(*v)->Arr_0;
            let mut out: Vec<Json> = Vec::new();
            let mut i: usize = 0;
            while i < a.len()
                invariant
                    i <= a@.len(),
                    out@.len() == i,
                    document(*v) == JsonV::Arr(all),
                    all.len() == a@.len(),
                    forall|k: int| 0 <= k < a@.len() ==> document(a@[k]) == #[trigger] all[k],
                    forall|k: int| 0 <= k < i ==> (#[trigger] out@[k])@ == all[k],
                decreases a@.len() - i,
            {
                assert(document(a@[i as int]) == all[i as int]);
                assert(decreases_to!(document(*v) => document(*v)->Arr_0));
                assert(decreases_to!(all => all[i as int]));
                out.push(held(&a[i]));
                i += 1;
            }
            assert(Json::Arr(out)@->Arr_0 =~= all);
            Json::Arr(out)
        },
        Part::Obj(m) => {
            let ghost all = document(*v)->Obj_0;
            let mut out: Vec<(String, Json)> = Vec::new();
            let mut i: usize = 0;
            while i < m.len()
                invariant
                    i <= m@.len(),
                    out@.len() == i,
                    document(*v) == JsonV::Obj(all),
                    all.len() == m@.len(),
                    forall|k: int| 0 <= k < m@.len() ==> (m@[k].0@, document(*m@[k].1)) == #[trigger] all[k],
                    forall|k: int| 0 <= k < i ==> ((#[trigger] out@[k]).0@, out@[k].1@) == all[k],
                decreases m@.len() - i,
            {
                assert((m@[i as int].0@, document(*m@[i as int].1)) == all[i as int]);
                assert(decreases_to!(document(*v) => document(*v)->Obj_0));
                assert(decreases_to!(all => all[i as int]));
                assert(decreases_to!(all[i as int] => all[i as int].1));
                let name: String = m[i].0.as_str().to_owned();
                out.push((name, held(m[i].1)));
                i += 1;
            }
            assert(Json::Obj(out)@->Obj_0 =~= all);
            Json::Obj(out)
        },
    }
}

/// Read a JSON text.
pub fn parse(text: &[u8]) -> (r: Result<Json, String>)
    ensures
        match r {
            Ok(j) => parsed(text@) == Ok::<JsonV, Seq<char>>(j@),
            Err(e) => parsed(text@) == Err::<JsonV, Seq<char>>(e@),
        },
{
    match read(text) {
        Ok(v) => Ok(held(&v)),
        Err(e) => Err(e),
    }
}

/// Read the JSON text of a file. What is wrong with it is told under the file's name.
pub fn parse_file(text: &[u8], file: &str) -> (r: Result<Json, String>)
    ensures
        match r {
            Ok(j) => parsed(text@) == Ok::<JsonV, Seq<char>>(j@),
            Err(e) => parsed(text@) is Err && e@ == file@ + ": "@ + parsed(text@)->Err_0,
        },
{
    match parse(text) {
        Ok(j) => Ok(j),
        Err(e) => Err(join3(file, ": ", e.as_str())),
    }
}

} // verus!
