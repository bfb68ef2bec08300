//! Evaluating the expressions of a chat template.
//!
//! Sums and comparisons of numbers are done in double precision, which is not
//! done here: an expression that needs one names it, and is evaluated again once
//! the answer is among the facts. Whole numbers that a double holds exactly are
//! compared directly.

use vstd::prelude::*;
use vstd::hash_map::StringHashMap;
use vstd::string::*;
use crate::chat_tree::{BinOp, Expr, ExprV};
use crate::json::{Json, JsonV, Number, NumberV, entry_from, text_of};
use crate::text::{chars_of, contains, has, join, lowercase, same, substring, trim, trimmed, uppercase};

verus! {

/// An operation on doubles that an expression needs.
#[derive(Debug)]
pub enum Ask {
    Sum(Number, Number),
    Difference(Number, Number),
    /// -1, 0 or 1, as the first is less than, equal to or greater than the
    /// second.
    Order(Number, Number),
    Negation(Number),
    /// The number without its fraction, cut to 64 bits.
    Whole(Number),
    /// The same of a number written as text, or of 0 where it is none.
    WholeText(String),
    /// The number that a decimal literal writes; null where it is too large.
    Literal(String),
}

/// What an [`Ask`] holds.
pub enum AskV {
    Sum(NumberV, NumberV),
    Difference(NumberV, NumberV),
    Order(NumberV, NumberV),
    Negation(NumberV),
    Whole(NumberV),
    WholeText(Seq<char>),
    Literal(Seq<char>),
}

impl View for Ask {
    type V = AskV;

    open spec fn view(&self) -> AskV {
        match *self {
            Ask::Sum(a, b) => AskV::Sum(a@, b@),
            Ask::Difference(a, b) => AskV::Difference(a@, b@),
            Ask::Order(a, b) => AskV::Order(a@, b@),
            Ask::Negation(a) => AskV::Negation(a@),
            Ask::Whole(a) => AskV::Whole(a@),
            Ask::WholeText(t) => AskV::WholeText(t@),
            Ask::Literal(t) => AskV::Literal(t@),
        }
    }
}

/// An operation and its answer.
#[derive(Debug)]
pub struct Fact {
    pub ask: Ask,
    pub answer: Json,
}

/// What a list of facts holds.
pub open spec fn facts_view(v: Seq<Fact>) -> Seq<(AskV, JsonV)> {
    Seq::new(v.len(), |i: int| (v[i].ask@, v[i].answer@))
}

/// Why a template was not rendered.
#[derive(Debug)]
pub enum Halt {
    /// It cannot be rendered.
    Error(String),
    /// It needs the answer to this first.
    Need(Ask),
}

/// What a [`Halt`] holds.
pub enum HaltV {
    Error(Seq<char>),
    Need(AskV),
}

impl View for Halt {
    type V = HaltV;

    open spec fn view(&self) -> HaltV {
        match *self {
            Halt::Error(e) => HaltV::Error(e@),
            Halt::Need(a) => HaltV::Need(a@),
        }
    }
}

/// The names that are bound, and their values.
pub type Bound = Map<Seq<char>, JsonV>;

/// What a table of bindings holds.
pub open spec fn bound_view(m: Map<Seq<char>, Json>) -> Bound {
    Map::new(|k: Seq<char>| m.dom().contains(k), |k: Seq<char>| m[k]@)
}

/// The first answer to `ask`, from fact `from` on.
pub open spec fn answer_from(facts: Seq<(AskV, JsonV)>, ask: AskV, from: nat) -> Option<JsonV>
    decreases facts.len() - from,
{
    if from >= facts.len() {
        None
    } else if facts[from as int].0 == ask {
        Some(facts[from as int].1)
    } else {
        answer_from(facts, ask, from + 1)
    }
}

/// The answer to `ask`, or the need for it.
pub open spec fn asked(facts: Seq<(AskV, JsonV)>, ask: AskV) -> Result<JsonV, HaltV> {
    match answer_from(facts, ask, 0) {
        Some(v) => Ok(v),
        None => Err(HaltV::Need(ask)),
    }
}

// ------------------------------------------------------------------- values

/// Whether a double is zero, by its bits: the sign does not count.
pub open spec fn zero_bits(b: u64) -> bool {
    b == 0 || b == 0x8000_0000_0000_0000
}

/// Jinja truthiness: empty is false, and so is zero.
pub open spec fn is_true(v: JsonV) -> bool {
    match v {
        JsonV::Null => false,
        JsonV::Bool(b) => b,
        JsonV::Num(NumberV::Pos(n)) => n != 0,
        JsonV::Num(NumberV::Neg(n)) => n != 0,
        JsonV::Num(NumberV::Float(b, _)) => !zero_bits(b),
        JsonV::Str(s) => s.len() > 0,
        JsonV::Arr(a) => a.len() > 0,
        JsonV::Obj(m) => m.len() > 0,
    }
}

/// How a value renders inside `{{ }}`.
pub open spec fn shown(v: JsonV) -> Seq<char> {
    match v {
        JsonV::Str(s) => s,
        JsonV::Null => Seq::empty(),
        JsonV::Bool(b) => if b { "True"@ } else { "False"@ },
        _ => text_of(v),
    }
}

/// Whether two numbers are the same: a whole number and a double never are, and
/// of doubles both zeros are.
pub open spec fn same_number(a: NumberV, b: NumberV) -> bool {
    match (a, b) {
        (NumberV::Pos(x), NumberV::Pos(y)) => x == y,
        (NumberV::Neg(x), NumberV::Neg(y)) => x == y,
        (NumberV::Float(x, _), NumberV::Float(y, _)) => x == y || (zero_bits(x) && zero_bits(y)),
        _ => false,
    }
}

/// Whether two values are equal.
pub open spec fn equal(a: JsonV, b: JsonV) -> bool
    decreases a,
{
    match (a, b) {
        (JsonV::Null, JsonV::Null) => true,
        (JsonV::Bool(x), JsonV::Bool(y)) => x == y,
        (JsonV::Num(x), JsonV::Num(y)) => same_number(x, y),
        (JsonV::Str(x), JsonV::Str(y)) => x == y,
        (JsonV::Arr(x), JsonV::Arr(y)) => x.len() == y.len() && forall|i: int|
            0 <= i < x.len() ==> equal(#[trigger] x[i], y[i]),
        (JsonV::Obj(x), JsonV::Obj(y)) => x.len() == y.len() && forall|i: int|
            0 <= i < x.len() ==> (#[trigger] x[i]).0 == y[i].0 && equal(x[i].1, y[i].1),
        _ => false,
    }
}

/// The number that a value stands for in arithmetic; nothing but a number stands
/// for more than 0.
pub open spec fn operand(v: JsonV) -> NumberV {
    match v {
        JsonV::Num(n) => n,
        _ => NumberV::Pos(0),
    }
}

/// The value of a whole number that a double holds exactly.
pub open spec fn exact(n: NumberV) -> Option<int> {
    match n {
        NumberV::Pos(x) => if x <= 9007199254740992 { Some(x as int) } else { None },
        NumberV::Neg(x) => if -9007199254740992 <= x <= 9007199254740992 { Some(x as int) } else { None },
        NumberV::Float(_, _) => None,
    }
}

/// Whether an order sign holds of a first operand that is less than, equal to or
/// greater than the second, as `o` is negative, zero or positive.
pub open spec fn holds(op: BinOp, o: int) -> bool {
    match op {
        BinOp::Gt => o > 0,
        BinOp::Lt => o < 0,
        BinOp::Ge => o >= 0,
        _ => o <= 0,
    }
}

/// The order of two values, as numbers.
pub open spec fn ordered(op: BinOp, a: JsonV, b: JsonV, facts: Seq<(AskV, JsonV)>) -> Result<JsonV, HaltV> {
    let x = operand(a);
    let y = operand(b);
    match (exact(x), exact(y)) {
        (Some(m), Some(n)) => Ok(JsonV::Bool(holds(op, m - n))),
        _ => match asked(facts, AskV::Order(x, y)) {
            Err(h) => Err(h),
            Ok(v) => Ok(
                JsonV::Bool(
                    holds(
                        op,
                        match v.as_i64() {
                            Some(o) => o as int,
                            None => 0,
                        },
                    ),
                ),
            ),
        },
    }
}

/// Whether a value is equal to one of some others.
pub open spec fn among(items: Seq<JsonV>, a: JsonV) -> bool {
    exists|i: int| 0 <= i < items.len() && equal(#[trigger] items[i], a)
}

/// Membership in an array, an object or a string.
pub open spec fn is_in(a: JsonV, b: JsonV) -> bool {
    match b {
        JsonV::Arr(items) => among(items, a),
        JsonV::Obj(m) => a matches JsonV::Str(k) && entry_from(m, k, 0) is Some,
        JsonV::Str(s) => a matches JsonV::Str(n) && has(s, n),
        _ => false,
    }
}

/// What a test says of a value.
pub open spec fn tested(a: JsonV, test: JsonV) -> bool {
    match test {
        JsonV::Str(t) => if t == "defined"@ {
            !(a is Null)
        } else if t == "none"@ {
            a is Null
        } else if t == "string"@ {
            a is Str
        } else if t == "mapping"@ {
            a is Obj
        } else if t == "sequence"@ || t == "iterable"@ {
            a is Arr || a is Str
        } else {
            false
        },
        _ => false,
    }
}

/// Concatenation of strings or arrays, or a sum of numbers.
pub open spec fn plus(a: JsonV, b: JsonV, facts: Seq<(AskV, JsonV)>) -> Result<JsonV, HaltV> {
    match (a, b) {
        (JsonV::Str(x), _) => Ok(JsonV::Str(x + shown(b))),
        (_, JsonV::Str(y)) => Ok(JsonV::Str(shown(a) + y)),
        (JsonV::Arr(x), JsonV::Arr(y)) => Ok(JsonV::Arr(x + y)),
        _ => asked(facts, AskV::Sum(operand(a), operand(b))),
    }
}

/// An operator on two values, other than `and` and `or`.
pub open spec fn combined(op: BinOp, a: JsonV, b: JsonV, facts: Seq<(AskV, JsonV)>) -> Result<JsonV, HaltV> {
    match op {
        BinOp::Eq => Ok(JsonV::Bool(equal(a, b))),
        BinOp::Ne => Ok(JsonV::Bool(!equal(a, b))),
        BinOp::Gt | BinOp::Lt | BinOp::Ge | BinOp::Le => ordered(op, a, b, facts),
        BinOp::In => Ok(JsonV::Bool(is_in(a, b))),
        BinOp::Is => Ok(JsonV::Bool(tested(a, b))),
        BinOp::Plus => plus(a, b, facts),
        _ => asked(facts, AskV::Difference(operand(a), operand(b))),
    }
}

/// Where an index points: negative ones count from the end, and never before
/// the start.
pub open spec fn position(n: NumberV, len: nat) -> int {
    let i = match JsonV::Num(n).as_i64() {
        Some(i) => i as int,
        None => 0,
    };
    let at = if i < 0 {
        len + i
    } else {
        i
    };
    if at < 0 {
        0
    } else {
        at
    }
}

/// An element, a field or a character.
pub open spec fn indexed(b: JsonV, i: JsonV) -> JsonV {
    match (b, i) {
        (JsonV::Obj(_), JsonV::Str(k)) => b.field(k),
        (JsonV::Arr(a), JsonV::Num(n)) => if position(n, a.len()) < a.len() {
            a[position(n, a.len())]
        } else {
            JsonV::Null
        },
        (JsonV::Str(s), JsonV::Num(n)) => if position(n, s.len()) < s.len() {
            JsonV::Str(seq![s[position(n, s.len())]])
        } else {
            JsonV::Null
        },
        _ => JsonV::Null,
    }
}

/// The texts of the first `n` values, with `sep` between them.
pub open spec fn joined(v: Seq<JsonV>, sep: Seq<char>, n: nat) -> Seq<char>
    decreases n,
{
    if n == 0 || n > v.len() {
        Seq::empty()
    } else if n == 1 {
        shown(v[0])
    } else {
        joined(v, sep, (n - 1) as nat) + sep + shown(v[n - 1])
    }
}

/// How many elements, entries or characters a value has.
pub open spec fn size_of(v: JsonV) -> nat {
    match v {
        JsonV::Arr(a) => a.len(),
        JsonV::Obj(m) => m.len(),
        JsonV::Str(s) => s.len(),
        _ => 0,
    }
}

/// A text with its first character in upper case and the others in lower case.
pub open spec fn capitalized(s: Seq<char>) -> Seq<char> {
    if s.len() == 0 {
        Seq::empty()
    } else {
        uppercase(seq![s[0]]) + lowercase(s.drop_first())
    }
}

/// A value as a whole number.
pub open spec fn whole(v: JsonV, facts: Seq<(AskV, JsonV)>) -> Result<JsonV, HaltV> {
    match v {
        JsonV::Num(n) => match exact(n) {
            Some(_) => Ok(v),
            None => asked(facts, AskV::Whole(n)),
        },
        _ => asked(facts, AskV::WholeText(shown(v))),
    }
}

/// A filter that reads no argument; `None` where there is no such filter.
pub open spec fn filtered(v: JsonV, name: Seq<char>, facts: Seq<(AskV, JsonV)>) -> Option<Result<JsonV, HaltV>> {
    if name == "trim"@ {
        Some(Ok(JsonV::Str(trimmed(shown(v)))))
    } else if name == "lower"@ {
        Some(Ok(JsonV::Str(lowercase(shown(v)))))
    } else if name == "upper"@ {
        Some(Ok(JsonV::Str(uppercase(shown(v)))))
    } else if name == "capitalize"@ {
        Some(Ok(JsonV::Str(capitalized(shown(v)))))
    } else if name == "string"@ {
        Some(Ok(JsonV::Str(shown(v))))
    } else if name == "int"@ {
        Some(whole(v, facts))
    } else if name == "length"@ || name == "count"@ {
        Some(Ok(JsonV::Num(NumberV::Pos(size_of(v) as u64))))
    } else if name == "first"@ {
        Some(
            Ok(
                match v {
                    JsonV::Arr(a) => if a.len() > 0 { a[0] } else { JsonV::Null },
                    _ => JsonV::Null,
                },
            ),
        )
    } else if name == "last"@ {
        Some(
            Ok(
                match v {
                    JsonV::Arr(a) => if a.len() > 0 { a.last() } else { JsonV::Null },
                    _ => JsonV::Null,
                },
            ),
        )
    } else if name == "list"@ || name == "items"@ {
        Some(Ok(v))
    } else if name == "reverse"@ {
        Some(
            Ok(
                match v {
                    JsonV::Arr(a) => JsonV::Arr(a.reverse()),
                    _ => v,
                },
            ),
        )
    } else if name == "tojson"@ {
        Some(Ok(JsonV::Str(text_of(v))))
    } else {
        None
    }
}

/// The value of an expression. An undefined name is null, as Jinja's default
/// undefined behaves in a boolean test.
pub open spec fn value(e: ExprV, scope: Bound, facts: Seq<(AskV, JsonV)>) -> Result<JsonV, HaltV>
    decreases e, 0nat,
{
    match e {
        ExprV::Lit(v) => Ok(v),
        ExprV::Decimal(t) => asked(facts, AskV::Literal(t)),
        ExprV::Negative(a) => match value(*a, scope, facts) {
            Err(h) => Err(h),
            Ok(JsonV::Num(n)) => asked(facts, AskV::Negation(n)),
            Ok(_) => asked(facts, AskV::Difference(NumberV::Pos(0), NumberV::Pos(0))),
        },
        ExprV::Var(name) => Ok(
            if scope.dom().contains(name) {
                scope[name]
            } else {
                JsonV::Null
            },
        ),
        ExprV::List(items) => match values(items, scope, facts, items.len()) {
            Err(h) => Err(h),
            Ok(v) => Ok(JsonV::Arr(v)),
        },
        ExprV::Index(base, idx) => match value(*base, scope, facts) {
            Err(h) => Err(h),
            Ok(b) => match value(*idx, scope, facts) {
                Err(h) => Err(h),
                Ok(i) => Ok(indexed(b, i)),
            },
        },
        ExprV::Not(a) => match value(*a, scope, facts) {
            Err(h) => Err(h),
            Ok(v) => Ok(JsonV::Bool(!is_true(v))),
        },
        ExprV::Cond(c, a, b) => match value(*c, scope, facts) {
            Err(h) => Err(h),
            Ok(v) => if is_true(v) {
                value(*a, scope, facts)
            } else {
                value(*b, scope, facts)
            },
        },
        ExprV::Bin(op, l, r) => match value(*l, scope, facts) {
            Err(h) => Err(h),
            // `and` and `or` short-circuit and yield the operand, not a bool.
            Ok(a) => if op is And && !is_true(a) || op is Or && is_true(a) {
                Ok(a)
            } else {
                match value(*r, scope, facts) {
                    Err(h) => Err(h),
                    Ok(b) => if op is And || op is Or {
                        Ok(b)
                    } else {
                        combined(op, a, b, facts)
                    },
                }
            },
        },
        ExprV::Filter(base, name, args) => match value(*base, scope, facts) {
            Err(h) => Err(h),
            Ok(v) => match filtered(v, name, facts) {
                Some(r) => r,
                None => if name == "join"@ || name == "default"@ && v is Null {
                    match (if args.len() > 0 {
                        value(args[0], scope, facts)
                    } else {
                        Ok(JsonV::Null)
                    }) {
                        Err(h) => Err(h),
                        Ok(arg) => if name == "default"@ {
                            Ok(arg)
                        } else {
                            Ok(JsonV::Str(spliced(v, arg)))
                        },
                    }
                } else if name == "default"@ {
                    Ok(v)
                } else {
                    Err(HaltV::Error("unsupported filter: "@ + name))
                },
            },
        },
    }
}

/// The elements of an array as text, with a separator that is a string, or else
/// none, between them.
pub open spec fn spliced(v: JsonV, sep: JsonV) -> Seq<char> {
    match v {
        JsonV::Arr(a) => joined(
            a,
            match sep {
                JsonV::Str(s) => s,
                _ => Seq::empty(),
            },
            a.len(),
        ),
        _ => shown(v),
    }
}

/// The values of the first `n` expressions.
pub open spec fn values(items: Seq<ExprV>, scope: Bound, facts: Seq<(AskV, JsonV)>, n: nat) -> Result<
    Seq<JsonV>,
    HaltV,
>
    decreases items, n,
{
    if n == 0 || n > items.len() {
        Ok(Seq::empty())
    } else {
        match values(items, scope, facts, (n - 1) as nat) {
            Err(h) => Err(h),
            Ok(before) => match value(items[n - 1], scope, facts) {
                Err(h) => Err(h),
                Ok(v) => Ok(before.push(v)),
            },
        }
    }
}

// --------------------------------------------------------------- evaluation

/// Whether a result is the one wanted.
pub open spec fn gives(r: Result<Json, Halt>, want: Result<JsonV, HaltV>) -> bool {
    match r {
        Ok(v) => want == Ok::<JsonV, HaltV>(v@),
        Err(h) => want == Err::<JsonV, HaltV>(h@),
    }
}

fn identical(a: &Number, b: &Number) -> (r: bool)
    ensures
        r == (a@ == b@),
{
    match (a, b) {
        (Number::Pos(x), Number::Pos(y)) => *x == *y,
        (Number::Neg(x), Number::Neg(y)) => *x == *y,
        (Number::Float(x, s), Number::Float(y, t)) => *x == *y && same(s.as_str(), t.as_str()),
        _ => false,
    }
}

fn same_ask(a: &Ask, b: &Ask) -> (r: bool)
    ensures
        r == (a@ == b@),
{
    match (a, b) {
        (Ask::Sum(x, y), Ask::Sum(u, v)) => identical(x, u) && identical(y, v),
        (Ask::Difference(x, y), Ask::Difference(u, v)) => identical(x, u) && identical(y, v),
        (Ask::Order(x, y), Ask::Order(u, v)) => identical(x, u) && identical(y, v),
        (Ask::Negation(x), Ask::Negation(u)) => identical(x, u),
        (Ask::Whole(x), Ask::Whole(u)) => identical(x, u),
        (Ask::WholeText(x), Ask::WholeText(u)) => same(x.as_str(), u.as_str()),
        (Ask::Literal(x), Ask::Literal(u)) => same(x.as_str(), u.as_str()),
        _ => false,
    }
}

/// The answer to `ask`, or the need for it.
fn answer(facts: &Vec<Fact>, ask: Ask) -> (r: Result<Json, Halt>)
    ensures
        gives(r, asked(facts_view(facts@), ask@)),
{
    let ghost fv = facts_view(facts@);
    let mut i: usize = 0;
    while i < facts.len()
        invariant
            i <= facts@.len(),
            fv == facts_view(facts@),
            answer_from(fv, ask@, 0) == answer_from(fv, ask@, i as nat),
        decreases facts.len() - i,
    {
        assert(fv[i as int] == (facts@[i as int].ask@, facts@[i as int].answer@));
        if same_ask(&facts[i].ask, &ask) {
            return Ok(facts[i].answer.copy());
        }
        i += 1;
    }
    Err(Halt::Need(ask))
}

fn number_copy(n: &Number) -> (r: Number)
    ensures
        r@ == n@,
{
    match n {
        Number::Pos(x) => Number::Pos(*x),
        Number::Neg(x) => Number::Neg(*x),
        Number::Float(b, t) => Number::Float(*b, t.clone()),
    }
}

fn is_zero_bits(b: u64) -> (r: bool)
    ensures
        r == zero_bits(b),
{
    b == 0 || b == 0x8000_0000_0000_0000
}

/// Jinja truthiness: empty is false, and so is zero.
pub fn truthy(v: &Json) -> (r: bool)
    ensures
        r == is_true(v@),
{
    match v {
        Json::Null => false,
        Json::Bool(b) => *b,
        Json::Num(Number::Pos(n)) => *n != 0,
        Json::Num(Number::Neg(n)) => *n != 0,
        Json::Num(Number::Float(b, _)) => !is_zero_bits(*b),
        Json::Str(s) => !s.as_str().is_empty(),
        Json::Arr(a) => a.len() > 0,
        Json::Obj(m) => m.len() > 0,
    }
}

/// How a value renders inside `{{ }}`.
pub fn stringify(v: &Json) -> (r: String)
    ensures
        r@ == shown(v@),
{
    match v {
        Json::Str(s) => s.clone(),
        Json::Null => String::new(),
        Json::Bool(b) => if *b {
            "True".to_owned()
        } else {
            "False".to_owned()
        },
        _ => v.text(),
    }
}

fn alike_number(a: &Number, b: &Number) -> (r: bool)
    ensures
        r == same_number(a@, b@),
{
    match (a, b) {
        (Number::Pos(x), Number::Pos(y)) => *x == *y,
        (Number::Neg(x), Number::Neg(y)) => *x == *y,
        (Number::Float(x, _), Number::Float(y, _)) => *x == *y || (is_zero_bits(*x) && is_zero_bits(*y)),
        _ => false,
    }
}

/// Whether two values are equal.
pub fn alike(a: &Json, b: &Json) -> (r: bool)
    ensures
        r == equal(a@, b@),
    decreases a,
{
    match (a, b) {
        (Json::Null, Json::Null) => true,
        (Json::Bool(x), Json::Bool(y)) => *x == *y,
        (Json::Num(x), Json::Num(y)) => alike_number(x, y),
        (Json::Str(x), Json::Str(y)) => same(x.as_str(), y.as_str()),
        (Json::Arr(x), Json::Arr(y)) => {
            if x.len() != y.len() {
                return false;
            }
            let ghost xv = a@->Arr_0;
            let ghost yv = b@->Arr_0;
            let mut i: usize = 0;
            while i < x.len()
                invariant
                    i <= x@.len() == y@.len(),
                    *a == Json::Arr(*x),
                    *b == Json::Arr(*y),
                    a@ == JsonV::Arr(xv),
                    b@ == JsonV::Arr(yv),
                    forall|k: int| 0 <= k < i ==> equal(#[trigger] xv[k], yv[k]),
                decreases x.len() - i,
            {
                assert(decreases_to!(*a => a->Arr_0));
                assert(decreases_to!(x => x@));
                assert(decreases_to!(x@ => x@[i as int]));
                assert(xv[i as int] == x@[i as int]@ && yv[i as int] == y@[i as int]@);
                if !alike(&x[i], &y[i]) {
                    return false;
                }
                i += 1;
            }
            true
        },
        (Json::Obj(x), Json::Obj(y)) => {
            if x.len() != y.len() {
                return false;
            }
            let ghost xv = a@->Obj_0;
            let ghost yv = b@->Obj_0;
            let mut i: usize = 0;
            while i < x.len()
                invariant
                    i <= x@.len() == y@.len(),
                    *a == Json::Obj(*x),
                    *b == Json::Obj(*y),
                    a@ == JsonV::Obj(xv),
                    b@ == JsonV::Obj(yv),
                    forall|k: int| 0 <= k < i ==> (#[trigger] xv[k]).0 == yv[k].0 && equal(xv[k].1, yv[k].1),
                decreases x.len() - i,
            {
                assert(decreases_to!(*a => a->Obj_0));
                assert(decreases_to!(x => x@));
                assert(decreases_to!(x@ => x@[i as int]));
                assert(decreases_to!(x@[i as int] => x@[i as int].1));
                assert(xv[i as int] == (x@[i as int].0@, x@[i as int].1@));
                assert(yv[i as int] == (y@[i as int].0@, y@[i as int].1@));
                if !same(x[i].0.as_str(), y[i].0.as_str()) || !alike(&x[i].1, &y[i].1) {
                    return false;
                }
                i += 1;
            }
            true
        },
        _ => false,
    }
}

fn number_of(v: &Json) -> (r: Number)
    ensures
        r@ == operand(v@),
{
    match v {
        Json::Num(n) => number_copy(n),
        _ => Number::Pos(0),
    }
}

fn exact_value(n: &Number) -> (r: Option<i64>)
    ensures
        match r {
            Some(x) => exact(n@) == Some(x as int) && -9007199254740992 <= x <= 9007199254740992,
            None => exact(n@) is None,
        },
{
    match n {
        Number::Pos(x) => if *x <= 9007199254740992 {
            Some(*x as i64)
        } else {
            None
        },
        Number::Neg(x) => if *x >= -9007199254740992 && *x <= 9007199254740992 {
            Some(*x)
        } else {
            None
        },
        Number::Float(_, _) => None,
    }
}

fn satisfies(op: BinOp, o: i64) -> (r: bool)
    ensures
        r == holds(op, o as int),
{
    match op {
        BinOp::Gt => o > 0,
        BinOp::Lt => o < 0,
        BinOp::Ge => o >= 0,
        _ => o <= 0,
    }
}

fn compare(op: BinOp, a: &Json, b: &Json, facts: &Vec<Fact>) -> (r: Result<Json, Halt>)
    ensures
        gives(r, ordered(op, a@, b@, facts_view(facts@))),
{
    let x = number_of(a);
    let y = number_of(b);
    match (exact_value(&x), exact_value(&y)) {
        (Some(m), Some(n)) => Ok(Json::Bool(satisfies(op, m - n))),
        _ => match answer(facts, Ask::Order(x, y)) {
            Err(h) => Err(h),
            Ok(v) => {
                let o: i64 = match v.as_i64() {
                    Some(o) => o,
                    None => 0,
                };
                Ok(Json::Bool(satisfies(op, o)))
            },
        },
    }
}

fn member(a: &Json, b: &Json) -> (r: bool)
    ensures
        r == is_in(a@, b@),
{
    match b {
        Json::Arr(items) => {
            let ghost iv = b@->Arr_0;
            let mut i: usize = 0;
            while i < items.len()
                invariant
                    i <= items@.len(),
                    *b == Json::Arr(*items),
                    b@ == JsonV::Arr(iv),
                    iv.len() == items@.len(),
                    forall|k: int| 0 <= k < i ==> !equal(#[trigger] iv[k], a@),
                decreases items.len() - i,
            {
                assert(iv[i as int] == items@[i as int]@);
                if alike(&items[i], a) {
                    assert(equal(iv[i as int], a@));
                    assert(among(iv, a@));
                    return true;
                }
                i += 1;
            }
            false
        },
        Json::Obj(_) => match a {
            Json::Str(k) => b.get(k.as_str()).is_some(),
            _ => false,
        },
        Json::Str(s) => match a {
            Json::Str(n) => contains(s.as_str(), n.as_str()),
            _ => false,
        },
        _ => false,
    }
}

fn passes(a: &Json, test: &Json) -> (r: bool)
    ensures
        r == tested(a@, test@),
{
    match test {
        Json::Str(t) => {
            let t = t.as_str();
            if same(t, "defined") {
                !matches!(a, Json::Null)
            } else if same(t, "none") {
                matches!(a, Json::Null)
            } else if same(t, "string") {
                matches!(a, Json::Str(_))
            } else if same(t, "mapping") {
                matches!(a, Json::Obj(_))
            } else if same(t, "sequence") || same(t, "iterable") {
                matches!(a, Json::Arr(_)) || matches!(a, Json::Str(_))
            } else {
                false
            }
        },
        _ => false,
    }
}

/// What a list of values holds.
pub open spec fn jsons(v: Seq<Json>) -> Seq<JsonV> {
    Seq::new(v.len(), |i: int| v[i]@)
}

fn array(v: Vec<Json>) -> (r: Json)
    ensures
        r@ == JsonV::Arr(jsons(v@)),
{
    let r = Json::Arr(v);
    assert(r@->Arr_0 =~= jsons(v@));
    r
}

/// Copies of the elements of an array, appended to `out`.
fn extend(out: &mut Vec<Json>, a: &Json)
    ensures
        jsons(final(out)@) == jsons(old(out)@) + crate::json::elements(a@),
{
    let ghost start = jsons(out@);
    let ghost av = crate::json::elements(a@);
    let n: usize = a.count();
    let mut i: usize = 0;
    assert(jsons(out@) =~= start + av.subrange(0, 0));
    while i < n
        invariant
            i <= n == av.len(),
            av == crate::json::elements(a@),
            jsons(out@) == start + av.subrange(0, i as int),
        decreases n - i,
    {
        let ghost before = jsons(out@);
        let v = a.item(i).copy();
        out.push(v);
        assert(jsons(out@) =~= before.push(v@));
        i += 1;
        assert(jsons(out@) =~= start + av.subrange(0, i as int));
    }
    assert(av.subrange(0, n as int) =~= av);
}

fn add_values(a: &Json, b: &Json, facts: &Vec<Fact>) -> (r: Result<Json, Halt>)
    ensures
        gives(r, plus(a@, b@, facts_view(facts@))),
{
    match (a, b) {
        (Json::Str(x), _) => Ok(Json::Str(join(x.as_str(), stringify(b).as_str()))),
        (_, Json::Str(y)) => Ok(Json::Str(join(stringify(a).as_str(), y.as_str()))),
        (Json::Arr(_), Json::Arr(_)) => {
            let mut out: Vec<Json> = Vec::new();
            extend(&mut out, a);
            extend(&mut out, b);
            assert(jsons(out@) =~= a@->Arr_0 + b@->Arr_0);
            Ok(array(out))
        },
        _ => answer(facts, Ask::Sum(number_of(a), number_of(b))),
    }
}

/// An operator on two values, other than `and` and `or`.
fn combine(op: BinOp, a: &Json, b: &Json, facts: &Vec<Fact>) -> (r: Result<Json, Halt>)
    ensures
        gives(r, combined(op, a@, b@, facts_view(facts@))),
{
    match op {
        BinOp::Eq => Ok(Json::Bool(alike(a, b))),
        BinOp::Ne => Ok(Json::Bool(!alike(a, b))),
        BinOp::Gt | BinOp::Lt | BinOp::Ge | BinOp::Le => compare(op, a, b, facts),
        BinOp::In => Ok(Json::Bool(member(a, b))),
        BinOp::Is => Ok(Json::Bool(passes(a, b))),
        BinOp::Plus => add_values(a, b, facts),
        _ => answer(facts, Ask::Difference(number_of(a), number_of(b))),
    }
}

/// Where an index points, if inside.
fn locate(n: &Number, len: usize) -> (r: Option<usize>)
    ensures
        match r {
            Some(i) => i == position(n@, len as nat) && i < len,
            None => position(n@, len as nat) >= len,
        },
{
    let i: i64 = match Json::Num(number_copy(n)).as_i64() {
        Some(i) => i,
        None => 0,
    };
    if i < 0 {
        // Negative indices count from the end, as in Python.
        let back: u64 = if i == i64::MIN {
            9223372036854775808
        } else {
            (-i) as u64
        };
        if back >= len as u64 {
            if len > 0 {
                Some(0)
            } else {
                None
            }
        } else {
            Some(len - back as usize)
        }
    } else if (i as u64) < len as u64 {
        Some(i as usize)
    } else {
        None
    }
}

fn index(b: &Json, i: &Json) -> (r: Json)
    ensures
        r@ == indexed(b@, i@),
{
    match (b, i) {
        (Json::Obj(_), Json::Str(k)) => b.field(k.as_str()).copy(),
        (Json::Arr(a), Json::Num(n)) => match locate(n, a.len()) {
            Some(k) => a[k].copy(),
            None => Json::Null,
        },
        (Json::Str(s), Json::Num(n)) => {
            let c = chars_of(s.as_str());
            match locate(n, c.len()) {
                Some(k) => {
                    let one = substring(c.as_slice(), k, k + 1);
                    assert(one@ =~= seq![s@[k as int]]);
                    Json::Str(one)
                },
                None => Json::Null,
            }
        },
        _ => Json::Null,
    }
}

/// The elements as text, with `sep` between them.
fn splice(v: &Json, sep: &Json) -> (out: String)
    ensures
        out@ == spliced(v@, sep@),
{
    match v {
        Json::Arr(a) => {
            let between = match sep {
                Json::Str(s) => s.clone(),
                _ => String::new(),
            };
            let ghost av = v@->Arr_0;
            let mut out = String::new();
            let mut i: usize = 0;
            while i < a.len()
                invariant
                    i <= a@.len(),
                    *v == Json::Arr(*a),
                    v@ == JsonV::Arr(av),
                    out@ == joined(av, between@, i as nat),
                decreases a.len() - i,
            {
                assert(av[i as int] == a@[i as int]@);
                if i > 0 {
                    out.append(between.as_str());
                }
                let t = stringify(&a[i]);
                out.append(t.as_str());
                i += 1;
                assert(out@ =~= joined(av, between@, i as nat));
            }
            out
        },
        _ => stringify(v),
    }
}

fn measure(v: &Json) -> (n: usize)
    ensures
        n == size_of(v@),
{
    match v {
        Json::Arr(a) => a.len(),
        Json::Obj(m) => m.len(),
        Json::Str(s) => chars_of(s.as_str()).len(),
        _ => 0,
    }
}

fn capitalize(s: &str) -> (r: String)
    ensures
        r@ == capitalized(s@),
{
    let c = chars_of(s);
    if c.len() == 0 {
        return String::new();
    }
    let first = substring(c.as_slice(), 0, 1);
    assert(first@ =~= seq![s@[0]]);
    let rest = substring(c.as_slice(), 1, c.len());
    assert(rest@ =~= s@.drop_first());
    join(first.as_str().to_uppercase().as_str(), rest.as_str().to_lowercase().as_str())
}

fn reversed(a: &Vec<Json>) -> (r: Vec<Json>)
    ensures
        jsons(r@) == jsons(a@).reverse(),
{
    let mut out: Vec<Json> = Vec::new();
    let n: usize = a.len();
    let mut i: usize = 0;
    while i < n
        invariant
            i <= n == a@.len(),
            out@.len() == i,
            forall|k: int| 0 <= k < i ==> (#[trigger] out@[k])@ == a@[n - 1 - k]@,
        decreases n - i,
    {
        out.push(a[n - 1 - i].copy());
        i += 1;
    }
    assert(jsons(out@) =~= jsons(a@).reverse());
    out
}

fn whole_value(v: &Json, facts: &Vec<Fact>) -> (r: Result<Json, Halt>)
    ensures
        gives(r, whole(v@, facts_view(facts@))),
{
    match v {
        Json::Num(n) => match exact_value(n) {
            Some(_) => Ok(v.copy()),
            None => answer(facts, Ask::Whole(number_copy(n))),
        },
        _ => answer(facts, Ask::WholeText(stringify(v))),
    }
}

/// A filter that reads no argument; `None` where there is no such filter.
#[verifier::spinoff_prover]
#[verifier::rlimit(30)]
fn filter(v: &Json, name: &str, facts: &Vec<Fact>) -> (r: Option<Result<Json, Halt>>)
    ensures
        match r {
            Some(x) => filtered(v@, name@, facts_view(facts@)) is Some && gives(
                x,
                filtered(v@, name@, facts_view(facts@))->0,
            ),
            None => filtered(v@, name@, facts_view(facts@)) is None,
        },
{
    if same(name, "trim") {
        Some(Ok(Json::Str(trim(stringify(v).as_str()))))
    } else if same(name, "lower") {
        Some(Ok(Json::Str(stringify(v).as_str().to_lowercase())))
    } else if same(name, "upper") {
        Some(Ok(Json::Str(stringify(v).as_str().to_uppercase())))
    } else if same(name, "capitalize") {
        Some(Ok(Json::Str(capitalize(stringify(v).as_str()))))
    } else if same(name, "string") {
        Some(Ok(Json::Str(stringify(v))))
    } else if same(name, "int") {
        Some(whole_value(v, facts))
    } else if same(name, "length") || same(name, "count") {
        Some(Ok(Json::Num(Number::Pos(measure(v) as u64))))
    } else if same(name, "first") {
        let n: usize = v.count();
        Some(
            Ok(
                if n > 0 {
                    v.item(0).copy()
                } else {
                    Json::Null
                },
            ),
        )
    } else if same(name, "last") {
        let n: usize = v.count();
        Some(
            Ok(
                if n > 0 {
                    v.item(n - 1).copy()
                } else {
                    Json::Null
                },
            ),
        )
    } else if same(name, "list") || same(name, "items") {
        Some(Ok(v.copy()))
    } else if same(name, "reverse") {
        Some(
            Ok(
                match v {
                    Json::Arr(a) => {
                        assert(v@->Arr_0 =~= jsons(a@));
                        array(reversed(a))
                    },
                    _ => v.copy(),
                },
            ),
        )
    } else if same(name, "tojson") {
        Some(Ok(Json::Str(v.text())))
    } else {
        None
    }
}

/// The value of an expression.
#[verifier::rlimit(60)]
#[verifier::spinoff_prover]
pub fn eval(e: &Expr, scope: &StringHashMap<Json>, facts: &Vec<Fact>) -> (r: Result<Json, Halt>)
    ensures
        gives(r, value(e@, bound_view(scope@), facts_view(facts@))),
    decreases e, 0int,
{
    match e {
        Expr::Lit(v) => Ok(v.copy()),
        Expr::Decimal(t) => answer(facts, Ask::Literal(t.clone())),
        Expr::Negative(a) => match eval(a, scope, facts) {
            Err(h) => Err(h),
            Ok(Json::Num(n)) => answer(facts, Ask::Negation(n)),
            Ok(_) => answer(facts, Ask::Difference(Number::Pos(0), Number::Pos(0))),
        },
        // An undefined name is null, as Jinja's default undefined behaves in a
        // boolean test, which is the only way chat templates use it.
        Expr::Var(name) => match scope.get(name.as_str()) {
            Some(v) => Ok(v.copy()),
            None => Ok(Json::Null),
        },
        Expr::List(items) => {
            assert(e@->List_0 =~= crate::chat_expr::exprs(items@));
            match eval_all(items, scope, facts) {
                Err(h) => Err(h),
                Ok(v) => Ok(array(v)),
            }
        },
        Expr::Index(base, idx) => match eval(base, scope, facts) {
            Err(h) => Err(h),
            Ok(b) => match eval(idx, scope, facts) {
                Err(h) => Err(h),
                Ok(i) => Ok(index(&b, &i)),
            },
        },
        Expr::Not(a) => match eval(a, scope, facts) {
            Err(h) => Err(h),
            Ok(v) => Ok(Json::Bool(!truthy(&v))),
        },
        Expr::Cond(c, a, b) => match eval(c, scope, facts) {
            Err(h) => Err(h),
            Ok(v) => if truthy(&v) {
                eval(a, scope, facts)
            } else {
                eval(b, scope, facts)
            },
        },
        Expr::Bin(op, l, r) => match eval(l, scope, facts) {
            Err(h) => Err(h),
            // `and` and `or` short-circuit and yield the operand, not a bool.
            Ok(a) => {
                let t = truthy(&a);
                if (*op == BinOp::And && !t) || (*op == BinOp::Or && t) {
                    return Ok(a);
                }
                match eval(r, scope, facts) {
                    Err(h) => Err(h),
                    Ok(b) => if *op == BinOp::And || *op == BinOp::Or {
                        Ok(b)
                    } else {
                        combine(*op, &a, &b, facts)
                    },
                }
            },
        },
        Expr::Filter(base, name, args) => match eval(base, scope, facts) {
            Err(h) => Err(h),
            Ok(v) => {
                assert(e@->Filter_2 =~= crate::chat_expr::exprs(args@));
                match filter(&v, name.as_str(), facts) {
                    Some(r) => r,
                    None => {
                        let join_it = same(name.as_str(), "join");
                        let default_it = same(name.as_str(), "default");
                        let null = matches!(v, Json::Null);
                        if join_it || (default_it && null) {
                            let arg = if args.len() > 0 {
                                assert(decreases_to!(*e => e->Filter_2));
                                assert(decreases_to!(args => args@));
                                assert(decreases_to!(args@ => args@[0]));
                                eval(&args[0], scope, facts)
                            } else {
                                Ok(Json::Null)
                            };
                            match arg {
                                Err(h) => Err(h),
                                Ok(arg) => if default_it {
                                    Ok(arg)
                                } else {
                                    Ok(Json::Str(splice(&v, &arg)))
                                },
                            }
                        } else if default_it {
                            Ok(v)
                        } else {
                            // The rest are used only by tool-calling templates,
                            // which this does not claim to render.
                            Err(Halt::Error(join("unsupported filter: ", name.as_str())))
                        }
                    },
                }
            },
        },
    }
}

/// The values of some expressions, or the first halt among them.
fn eval_all(items: &Vec<Expr>, scope: &StringHashMap<Json>, facts: &Vec<Fact>) -> (r: Result<Vec<Json>, Halt>)
    ensures
        ({
            let want = values(
                crate::chat_expr::exprs(items@),
                bound_view(scope@),
                facts_view(facts@),
                items@.len(),
            );
            match r {
                Ok(v) => want == Ok::<Seq<JsonV>, HaltV>(jsons(v@)),
                Err(h) => want == Err::<Seq<JsonV>, HaltV>(h@),
            }
        }),
    decreases items, 0int,
{
    let ghost iv = crate::chat_expr::exprs(items@);
    let ghost sv = bound_view(scope@);
    let ghost fv = facts_view(facts@);
    let mut out: Vec<Json> = Vec::new();
    let mut i: usize = 0;
    assert(jsons(out@) =~= Seq::<JsonV>::empty());
    while i < items.len()
        invariant
            i <= items@.len(),
            iv == crate::chat_expr::exprs(items@),
            sv == bound_view(scope@),
            fv == facts_view(facts@),
            values(iv, sv, fv, i as nat) == Ok::<Seq<JsonV>, HaltV>(jsons(out@)),
        decreases items.len() - i,
    {
        assert(decreases_to!(items => items@));
        assert(decreases_to!(items@ => items@[i as int]));
        match eval(&items[i], scope, facts) {
            Ok(v) => {
                let ghost before = jsons(out@);
                out.push(v);
                assert(jsons(out@) =~= before.push(v@));
            },
            Err(h) => {
                proof {
                    lemma_first_halt(iv, sv, fv, (i + 1) as nat, iv.len());
                }
                return Err(h);
            },
        }
        i += 1;
    }
    Ok(out)
}

proof fn lemma_first_halt(items: Seq<ExprV>, scope: Bound, facts: Seq<(AskV, JsonV)>, k: nat, n: nat)
    requires
        k <= n <= items.len(),
        values(items, scope, facts, k) is Err,
    ensures
        values(items, scope, facts, n) == values(items, scope, facts, k),
    decreases n,
{
    if k < n {
        lemma_first_halt(items, scope, facts, k, (n - 1) as nat);
    }
}

} // verus!
