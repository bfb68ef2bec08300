//! What a chat template means: what a loop tells its body, which branch is taken, what the
//! operators and filters give, and what the detected formats put around a turn.

use vstd::prelude::*;
use crate::chat::{initial_scope, items_of, position_info, rounds, run, step, taken, State};
use crate::chat_eval::{
    combined, equal, filtered, indexed, is_in, is_true, joined, shown, spliced, tested, value, AskV, Bound, HaltV,
};
use crate::chat_expr::{eat, named, sign, spaced, string_rest, sum_sign};
use crate::chat_lex::{controlled_piece, cut, opens, piece_of, PieceV};
use crate::chat_tree::{BinOp, ExprV, NodeV};
use crate::json::{entry_from, JsonV, NumberV};
use crate::prompt::{content_of, format_named, format_shown, role_of, ChatFormatV};
use crate::text::{is_at, lowercase, strip_end, strip_start, trimmed, uppercase, Blank};
use crate::tokenizer::TokenizerV;

verus! {

/// What a number reads as.
pub open spec fn whole_number(n: int) -> JsonV {
    JsonV::Num(NumberV::Pos(n as u64))
}

/// Round `i` of a loop over `n` items knows where it stands: it is the first if and only if no
/// round came before it, the last if and only if none comes after it, and it counts from both
/// ends.
pub open spec fn knows_its_place(l: JsonV, i: int, n: int) -> bool {
    &&& l.field("first"@) == JsonV::Bool(i == 0)
    &&& l.field("last"@) == JsonV::Bool(i == n - 1)
    &&& l.field("index0"@) == whole_number(i)
    &&& l.field("index"@) == whole_number(i + 1)
    &&& l.field("revindex0"@) == whole_number(n - 1 - i)
    &&& l.field("revindex"@) == whole_number(n - i)
    &&& l.field("length"@) == whole_number(n)
}

proof fn lemma_place(i: int, n: int)
    requires
        0 <= i < n,
    ensures
        knows_its_place(position_info(i, n), i, n),
{
    reveal_strlit("first");
    reveal_strlit("index");
    reveal_strlit("index0");
    reveal_strlit("last");
    reveal_strlit("length");
    reveal_strlit("revindex");
    reveal_strlit("revindex0");
    assert("first"@.len() == 5 && "first"@[0] == 'f');
    assert("index"@.len() == 5 && "index"@[0] == 'i');
    assert("index0"@.len() == 6 && "index0"@[0] == 'i');
    assert("last"@.len() == 4);
    assert("length"@.len() == 6 && "length"@[0] == 'l');
    assert("revindex"@.len() == 8);
    assert("revindex0"@.len() == 9);
    reveal_with_fuel(entry_from, 8);
}

/// A loop runs its body once for each item, in order: in round `i` the variable is item `i`, and
/// `loop` knows its place.
pub proof fn law_loops_know_their_rounds(
    body: Seq<NodeV>,
    var: Seq<char>,
    items: Seq<JsonV>,
    i: nat,
    s: State,
    facts: Seq<(AskV, JsonV)>,
    depth: nat,
)
    requires
        var != "loop"@,
    ensures
        i >= items.len() ==> rounds(body, var, items, i, s, facts, depth) == Ok::<State, HaltV>(s),
        i < items.len() ==> exists|scope: Bound|
            #![trigger run(body, 0, (scope, s.1), facts, depth)]
            scope.dom().contains(var) && scope[var] == items[i as int] && scope.dom().contains("loop"@) && knows_its_place(
                scope["loop"@],
                i as int,
                items.len() as int,
            ) && (forall|name: Seq<char>|
                name != var && name != "loop"@ ==> scope.dom().contains(name) == s.0.dom().contains(name) && #[trigger] scope[name] == s.0[name]) && rounds(
                body,
                var,
                items,
                i,
                s,
                facts,
                depth,
            ) == (match run(body, 0, (scope, s.1), facts, depth) {
                Err(h) => Err(h),
                Ok(t) => rounds(body, var, items, i + 1, t, facts, depth),
            }),
{
    if i < items.len() {
        lemma_place(i as int, items.len() as int);
        let scope = s.0.insert(var, items[i as int]).insert("loop"@, position_info(i as int, items.len() as int));
        assert(rounds(body, var, items, i, s, facts, depth) == (match run(body, 0, (scope, s.1), facts, depth) {
            Err(h) => Err(h),
            Ok(t) => rounds(body, var, items, i + 1, t, facts, depth),
        }));
    }
}

/// Exactly one round of a loop is its first, and it is the one with the first item; exactly one is
/// its last, and it is the one with the last item.
pub proof fn law_one_round_is_first(i: int, n: int, a: JsonV)
    requires
        0 <= i < n,
        knows_its_place(a, i, n),
    ensures
        is_true(a.field("first"@)) <==> i == 0,
        is_true(a.field("last"@)) <==> i == n - 1,
{
}

/// A loop starts from the first item, with nothing said yet of it, and leaves what it says behind
/// what was said before.
pub proof fn law_loops_start_at_the_first_item(
    var: Seq<char>,
    iter: ExprV,
    body: Seq<NodeV>,
    items: Seq<JsonV>,
    s: State,
    facts: Seq<(AskV, JsonV)>,
    depth: nat,
)
    requires
        value(iter, s.0, facts) == Ok::<JsonV, HaltV>(JsonV::Arr(items)),
    ensures
        step(NodeV::For { var, iter, body }, s, facts, depth) matches Ok(t) ==> rounds(
            body,
            var,
            items,
            0,
            s,
            facts,
            depth + 1,
        ) matches Ok(u) && u.1 == t.1,
        step(NodeV::For { var, iter, body }, s, facts, depth) is Err <==> rounds(body, var, items, 0, s, facts, depth + 1)
            is Err,
{
}

/// A loop runs over the elements of a list, the characters of a text, the entries of an object as
/// pairs, and not at all over nothing.
pub proof fn law_loops_run_over_elements(a: Seq<JsonV>, s: Seq<char>, m: Seq<(Seq<char>, JsonV)>, k: int)
    ensures
        items_of(JsonV::Arr(a)) == Ok::<Seq<JsonV>, HaltV>(a),
        items_of(JsonV::Str(s)) matches Ok(v) && v.len() == s.len() && (0 <= k < s.len() ==> v[k] == JsonV::Str(seq![s[k]])),
        items_of(JsonV::Obj(m)) matches Ok(v) && v.len() == m.len() && (0 <= k < m.len() ==> v[k] == JsonV::Arr(
            seq![JsonV::Str(m[k].0), m[k].1],
        )),
        items_of(JsonV::Null) == Ok::<Seq<JsonV>, HaltV>(Seq::empty()),
        items_of(JsonV::Bool(true)) is Err,
{
}

/// The first branch whose condition holds is taken, and no other; where none holds, the `else` is.
pub proof fn law_first_true_branch_is_taken(
    branches: Seq<(ExprV, Seq<NodeV>)>,
    otherwise: Seq<NodeV>,
    k: int,
    s: State,
    facts: Seq<(AskV, JsonV)>,
    depth: nat,
)
    requires
        0 <= k <= branches.len(),
        forall|j: int|
            0 <= j < k ==> (value((#[trigger] branches[j]).0, s.0, facts) matches Ok(v) && !is_true(v)),
        k < branches.len() ==> (value(branches[k].0, s.0, facts) matches Ok(v) && is_true(v)),
    ensures
        k < branches.len() ==> step(NodeV::If(branches, otherwise), s, facts, depth) == run(
            branches[k].1,
            0,
            s,
            facts,
            depth + 1,
        ),
        k == branches.len() ==> step(NodeV::If(branches, otherwise), s, facts, depth) == run(
            otherwise,
            0,
            s,
            facts,
            depth + 1,
        ),
{
    lemma_taken(branches, 0, k, s.0, facts);
}

proof fn lemma_taken(branches: Seq<(ExprV, Seq<NodeV>)>, i: nat, k: int, scope: Bound, facts: Seq<(AskV, JsonV)>)
    requires
        i <= k <= branches.len(),
        forall|j: int|
            0 <= j < k ==> (value((#[trigger] branches[j]).0, scope, facts) matches Ok(v) && !is_true(v)),
        k < branches.len() ==> (value(branches[k].0, scope, facts) matches Ok(v) && is_true(v)),
    ensures
        taken(branches, i, scope, facts) == Ok::<nat, HaltV>(k as nat),
    decreases k - i,
{
    if i < k {
        assert(value(branches[i as int].0, scope, facts) is Ok);
        lemma_taken(branches, i + 1, k, scope, facts);
    }
}

/// Text is put out as it stands, an expression as its value is shown, and a binding puts out
/// nothing: the name has the value from there on.
pub proof fn law_nodes_put_out(t: Seq<char>, e: ExprV, name: Seq<char>, v: JsonV, s: State, facts: Seq<(AskV, JsonV)>, depth: nat)
    requires
        value(e, s.0, facts) == Ok::<JsonV, HaltV>(v),
    ensures
        step(NodeV::Text(t), s, facts, depth) == Ok::<State, HaltV>((s.0, s.1 + t)),
        step(NodeV::Out(e), s, facts, depth) == Ok::<State, HaltV>((s.0, s.1 + shown(v))),
        step(NodeV::Bind(name, e), s, facts, depth) matches Ok(u) && u.1 == s.1 && value(ExprV::Var(name), u.0, facts) == Ok::<
            JsonV,
            HaltV,
        >(v),
{
}

/// Texts are shown as they are, truth values as words, and nothing as nothing.
pub proof fn law_values_are_shown(s: Seq<char>)
    ensures
        shown(JsonV::Str(s)) == s,
        shown(JsonV::Bool(true)) == "True"@,
        shown(JsonV::Bool(false)) == "False"@,
        shown(JsonV::Null) == Seq::<char>::empty(),
{
}

/// What counts as true: all but nothing, false, zero, and what is empty.
pub proof fn law_truth(n: u64, m: i64, s: Seq<char>, a: Seq<JsonV>, o: Seq<(Seq<char>, JsonV)>)
    ensures
        !is_true(JsonV::Null),
        is_true(JsonV::Bool(true)) && !is_true(JsonV::Bool(false)),
        is_true(JsonV::Num(NumberV::Pos(n))) <==> n != 0,
        m < 0 ==> is_true(JsonV::Num(NumberV::Neg(m))),
        is_true(JsonV::Str(s)) <==> s != Seq::<char>::empty(),
        is_true(JsonV::Arr(a)) <==> a != Seq::<JsonV>::empty(),
        is_true(JsonV::Obj(o)) <==> o != Seq::<(Seq<char>, JsonV)>::empty(),
{
    if s.len() == 0 {
        assert(s =~= Seq::<char>::empty());
    }
    if a.len() == 0 {
        assert(a =~= Seq::<JsonV>::empty());
    }
    if o.len() == 0 {
        assert(o =~= Seq::<(Seq<char>, JsonV)>::empty());
    }
}

/// `and` gives its first operand where that is false, and else its second; `or` the other way
/// round; `not` gives the opposite; a conditional gives one of its two values.
pub proof fn law_connectives(l: ExprV, r: ExprV, c: ExprV, scope: Bound, facts: Seq<(AskV, JsonV)>, a: JsonV, b: JsonV)
    requires
        value(l, scope, facts) == Ok::<JsonV, HaltV>(a),
        value(r, scope, facts) == Ok::<JsonV, HaltV>(b),
    ensures
        value(ExprV::Bin(BinOp::And, Box::new(l), Box::new(r)), scope, facts) == Ok::<JsonV, HaltV>(if is_true(a) { b } else { a }),
        value(ExprV::Bin(BinOp::Or, Box::new(l), Box::new(r)), scope, facts) == Ok::<JsonV, HaltV>(if is_true(a) { a } else { b }),
        value(ExprV::Not(Box::new(l)), scope, facts) == Ok::<JsonV, HaltV>(JsonV::Bool(!is_true(a))),
        value(c, scope, facts) matches Ok(v) ==> value(ExprV::Cond(Box::new(c), Box::new(l), Box::new(r)), scope, facts)
            == Ok::<JsonV, HaltV>(if is_true(v) { a } else { b }),
{
}

/// Where `and` or `or` is decided by the first operand, the second is not even read.
pub proof fn law_connectives_stop_early(l: ExprV, r: ExprV, scope: Bound, facts: Seq<(AskV, JsonV)>, a: JsonV)
    requires
        value(l, scope, facts) == Ok::<JsonV, HaltV>(a),
    ensures
        !is_true(a) ==> value(ExprV::Bin(BinOp::And, Box::new(l), Box::new(r)), scope, facts) == Ok::<JsonV, HaltV>(a),
        is_true(a) ==> value(ExprV::Bin(BinOp::Or, Box::new(l), Box::new(r)), scope, facts) == Ok::<JsonV, HaltV>(a),
{
}

/// A name has the value that it is bound to, and nothing where it is not bound; a literal has its
/// own.
pub proof fn law_names_have_their_values(name: Seq<char>, v: JsonV, scope: Bound, facts: Seq<(AskV, JsonV)>)
    ensures
        value(ExprV::Var(name), scope.insert(name, v), facts) == Ok::<JsonV, HaltV>(v),
        !scope.dom().contains(name) ==> value(ExprV::Var(name), scope, facts) == Ok::<JsonV, HaltV>(JsonV::Null),
        value(ExprV::Lit(v), scope, facts) == Ok::<JsonV, HaltV>(v),
{
}

/// Whole numbers are compared as numbers.
pub proof fn law_numbers_are_compared(x: u64, y: u64, facts: Seq<(AskV, JsonV)>)
    requires
        x <= 0x20_0000_0000_0000,
        y <= 0x20_0000_0000_0000,
    ensures
        combined(BinOp::Lt, whole_number(x as int), whole_number(y as int), facts) == Ok::<JsonV, HaltV>(JsonV::Bool(x < y)),
        combined(BinOp::Gt, whole_number(x as int), whole_number(y as int), facts) == Ok::<JsonV, HaltV>(JsonV::Bool(x > y)),
        combined(BinOp::Le, whole_number(x as int), whole_number(y as int), facts) == Ok::<JsonV, HaltV>(JsonV::Bool(x <= y)),
        combined(BinOp::Ge, whole_number(x as int), whole_number(y as int), facts) == Ok::<JsonV, HaltV>(JsonV::Bool(x >= y)),
        combined(BinOp::Eq, whole_number(x as int), whole_number(y as int), facts) == Ok::<JsonV, HaltV>(JsonV::Bool(x == y)),
        combined(BinOp::Ne, whole_number(x as int), whole_number(y as int), facts) == Ok::<JsonV, HaltV>(JsonV::Bool(x != y)),
{
}

/// Texts are equal where they are the same, a value of one kind is never equal to one of another,
/// and inequality is the opposite of equality.
pub proof fn law_equality(s: Seq<char>, t: Seq<char>, a: JsonV, b: JsonV, facts: Seq<(AskV, JsonV)>)
    ensures
        equal(JsonV::Str(s), JsonV::Str(t)) <==> s == t,
        !equal(JsonV::Str(s), JsonV::Null) && !equal(JsonV::Null, JsonV::Str(s)),
        equal(JsonV::Null, JsonV::Null),
        combined(BinOp::Eq, a, b, facts) == Ok::<JsonV, HaltV>(JsonV::Bool(equal(a, b))),
        combined(BinOp::Ne, a, b, facts) == Ok::<JsonV, HaltV>(JsonV::Bool(!equal(a, b))),
{
}

/// Every value without doubles that are no numbers is equal to itself.
pub proof fn law_equality_is_reflexive(a: JsonV)
    ensures
        equal(a, a),
    decreases a,
{
    match a {
        JsonV::Arr(x) => {
            assert forall|i: int| 0 <= i < x.len() implies equal(#[trigger] x[i], x[i]) by {
                law_equality_is_reflexive(x[i]);
            }
        },
        JsonV::Obj(x) => {
            assert forall|i: int| 0 <= i < x.len() implies (#[trigger] x[i]).0 == x[i].0 && equal(x[i].1, x[i].1) by {
                law_equality_is_reflexive(x[i].1);
            }
        },
        _ => {},
    }
}

/// Adding texts puts one behind the other; a text and another value go by what is shown of it;
/// lists are put one behind the other.
pub proof fn law_texts_are_added(s: Seq<char>, t: Seq<char>, v: JsonV, a: Seq<JsonV>, b: Seq<JsonV>, facts: Seq<(AskV, JsonV)>)
    ensures
        combined(BinOp::Plus, JsonV::Str(s), JsonV::Str(t), facts) == Ok::<JsonV, HaltV>(JsonV::Str(s + t)),
        combined(BinOp::Plus, JsonV::Str(s), v, facts) == Ok::<JsonV, HaltV>(JsonV::Str(s + shown(v))),
        combined(BinOp::Plus, v, JsonV::Str(t), facts) == Ok::<JsonV, HaltV>(JsonV::Str(shown(v) + t)),
        combined(BinOp::Plus, JsonV::Arr(a), JsonV::Arr(b), facts) == Ok::<JsonV, HaltV>(JsonV::Arr(a + b)),
{
}

/// A value is in a list that has an equal one, a key in an object that has it, and a text in a
/// text that it stands in.
pub proof fn law_membership(a: JsonV, items: Seq<JsonV>, k: Seq<char>, v: JsonV, m: Seq<(Seq<char>, JsonV)>, s: Seq<char>, t: Seq<char>, u: Seq<char>)
    ensures
        is_in(a, JsonV::Arr(items)) <==> exists|i: int| 0 <= i < items.len() && equal(#[trigger] items[i], a),
        is_in(JsonV::Str(k), JsonV::Obj(seq![(k, v)] + m)),
        !is_in(JsonV::Str(k), JsonV::Obj(Seq::empty())),
        is_in(JsonV::Str(t), JsonV::Str(s + t + u)),
        !is_in(a, JsonV::Null),
{
    let o = seq![(k, v)] + m;
    assert(o[0] == (k, v));
    crate::split_laws::law_has_is_found(s + t + u, s, t, u);
}

/// What the tests say: a value is defined where it is something, and the others ask for its kind.
pub proof fn law_tests(a: JsonV)
    ensures
        tested(a, JsonV::Str("defined"@)) <==> a != JsonV::Null,
        tested(a, JsonV::Str("none"@)) <==> a == JsonV::Null,
        tested(a, JsonV::Str("string"@)) <==> a is Str,
        tested(a, JsonV::Str("mapping"@)) <==> a is Obj,
        tested(a, JsonV::Str("sequence"@)) <==> a is Arr || a is Str,
        tested(a, JsonV::Str("iterable"@)) <==> a is Arr || a is Str,
{
    reveal_strlit("defined");
    reveal_strlit("none");
    reveal_strlit("string");
    reveal_strlit("mapping");
    reveal_strlit("sequence");
    reveal_strlit("iterable");
    assert("defined"@.len() == 7 && "defined"@[0] == 'd');
    assert("none"@.len() == 4);
    assert("string"@.len() == 6);
    assert("mapping"@.len() == 7 && "mapping"@[0] == 'm');
    assert("sequence"@.len() == 8 && "sequence"@[0] == 's');
    assert("iterable"@.len() == 8 && "iterable"@[0] == 'i');
}

/// Indices count from the front, negative ones from the back; a field is looked up by its name;
/// what is not there is nothing.
pub proof fn law_indices(a: Seq<JsonV>, i: int, k: Seq<char>, o: JsonV)
    ensures
        0 <= i < a.len() && i <= i64::MAX ==> indexed(JsonV::Arr(a), whole_number(i)) == a[i],
        i64::MAX >= i >= a.len() ==> indexed(JsonV::Arr(a), whole_number(i)) == JsonV::Null,
        0 < i <= a.len() && i <= i64::MAX ==> indexed(JsonV::Arr(a), JsonV::Num(NumberV::Neg((-i) as i64))) == a[a.len() - i],
        o is Obj ==> indexed(o, JsonV::Str(k)) == o.field(k),
{
}

/// The filters on texts and lists, under their names.
pub proof fn law_filters(v: JsonV, s: Seq<char>, a: Seq<JsonV>, facts: Seq<(AskV, JsonV)>)
    ensures
        filtered(JsonV::Str(s), "trim"@, facts) == Some(Ok::<JsonV, HaltV>(JsonV::Str(trimmed(s)))),
        filtered(JsonV::Str(s), "lower"@, facts) == Some(Ok::<JsonV, HaltV>(JsonV::Str(lowercase(s)))),
        filtered(JsonV::Str(s), "upper"@, facts) == Some(Ok::<JsonV, HaltV>(JsonV::Str(uppercase(s)))),
        s.len() > 0 ==> filtered(JsonV::Str(s), "capitalize"@, facts) == Some(
            Ok::<JsonV, HaltV>(JsonV::Str(uppercase(seq![s[0]]) + lowercase(s.drop_first()))),
        ),
        filtered(JsonV::Str(s), "string"@, facts) == Some(Ok::<JsonV, HaltV>(JsonV::Str(s))),
        filtered(JsonV::Str(s), "length"@, facts) == Some(Ok::<JsonV, HaltV>(whole_number(s.len() as int))),
        filtered(JsonV::Arr(a), "length"@, facts) == Some(Ok::<JsonV, HaltV>(whole_number(a.len() as int))),
        filtered(JsonV::Arr(a), "count"@, facts) == Some(Ok::<JsonV, HaltV>(whole_number(a.len() as int))),
        a.len() > 0 ==> filtered(JsonV::Arr(a), "first"@, facts) == Some(Ok::<JsonV, HaltV>(a[0])),
        a.len() > 0 ==> filtered(JsonV::Arr(a), "last"@, facts) == Some(Ok::<JsonV, HaltV>(a[a.len() - 1])),
        a.len() == 0 ==> filtered(JsonV::Arr(a), "first"@, facts) == Some(Ok::<JsonV, HaltV>(JsonV::Null)),
        filtered(JsonV::Arr(a), "list"@, facts) == Some(Ok::<JsonV, HaltV>(JsonV::Arr(a))),
        filtered(JsonV::Arr(a), "reverse"@, facts) == Some(
            Ok::<JsonV, HaltV>(JsonV::Arr(Seq::new(a.len(), |k: int| a[a.len() - 1 - k]))),
        ),
        filtered(v, "tojson"@, facts) == Some(Ok::<JsonV, HaltV>(JsonV::Str(crate::json::text_of(v)))),
{
    reveal_strlit("trim");
    reveal_strlit("lower");
    reveal_strlit("upper");
    reveal_strlit("capitalize");
    reveal_strlit("string");
    reveal_strlit("int");
    reveal_strlit("length");
    reveal_strlit("count");
    reveal_strlit("first");
    reveal_strlit("last");
    reveal_strlit("list");
    reveal_strlit("items");
    reveal_strlit("reverse");
    reveal_strlit("tojson");
    assert("trim"@.len() == 4 && "trim"@[0] == 't');
    assert("lower"@.len() == 5 && "lower"@[0] == 'l');
    assert("upper"@.len() == 5 && "upper"@[0] == 'u');
    assert("capitalize"@.len() == 10);
    assert("string"@.len() == 6 && "string"@[0] == 's');
    assert("int"@.len() == 3);
    assert("length"@.len() == 6 && "length"@[0] == 'l');
    assert("count"@.len() == 5 && "count"@[0] == 'c');
    assert("first"@.len() == 5 && "first"@[0] == 'f');
    assert("last"@.len() == 4 && "last"@[0] == 'l' && "last"@[1] == 'a');
    assert("list"@.len() == 4 && "list"@[0] == 'l' && "list"@[1] == 'i');
    assert("items"@.len() == 5 && "items"@[0] == 'i');
    assert("reverse"@.len() == 7);
    assert("tojson"@.len() == 6 && "tojson"@[0] == 't');
    assert(a.reverse() =~= Seq::new(a.len(), |k: int| a[a.len() - 1 - k]));
}

/// A default stands in for nothing, and for nothing else.
pub proof fn law_defaults(e: ExprV, d: ExprV, scope: Bound, facts: Seq<(AskV, JsonV)>, v: JsonV, w: JsonV)
    requires
        value(e, scope, facts) == Ok::<JsonV, HaltV>(v),
        value(d, scope, facts) == Ok::<JsonV, HaltV>(w),
    ensures
        value(ExprV::Filter(Box::new(e), "default"@, seq![d]), scope, facts) == Ok::<JsonV, HaltV>(
            if v == JsonV::Null { w } else { v },
        ),
        value(ExprV::Filter(Box::new(e), "join"@, seq![d]), scope, facts) == Ok::<JsonV, HaltV>(JsonV::Str(spliced(v, w))),
{
    reveal_strlit("trim");
    reveal_strlit("lower");
    reveal_strlit("upper");
    reveal_strlit("capitalize");
    reveal_strlit("string");
    reveal_strlit("int");
    reveal_strlit("length");
    reveal_strlit("count");
    reveal_strlit("first");
    reveal_strlit("last");
    reveal_strlit("list");
    reveal_strlit("items");
    reveal_strlit("reverse");
    reveal_strlit("tojson");
    reveal_strlit("default");
    reveal_strlit("join");
    assert("trim"@.len() == 4 && "trim"@[0] == 't');
    assert("lower"@.len() == 5 && "lower"@[0] == 'l');
    assert("upper"@.len() == 5 && "upper"@[0] == 'u');
    assert("capitalize"@.len() == 10);
    assert("string"@.len() == 6 && "string"@[0] == 's');
    assert("int"@.len() == 3);
    assert("length"@.len() == 6 && "length"@[0] == 'l');
    assert("count"@.len() == 5 && "count"@[0] == 'c');
    assert("first"@.len() == 5 && "first"@[0] == 'f');
    assert("last"@.len() == 4 && "last"@[0] == 'l' && "last"@[1] == 'a');
    assert("list"@.len() == 4 && "list"@[0] == 'l' && "list"@[1] == 'i');
    assert("items"@.len() == 5 && "items"@[0] == 'i');
    assert("reverse"@.len() == 7 && "reverse"@[0] == 'r');
    assert("tojson"@.len() == 6 && "tojson"@[0] == 't');
    assert("default"@.len() == 7 && "default"@[0] == 'd');
    assert("join"@.len() == 4 && "join"@[0] == 'j');
}

/// Joining puts the separator between neighbours, and nowhere else.
pub proof fn law_joining(a: Seq<JsonV>, v: JsonV, sep: Seq<char>)
    ensures
        spliced(JsonV::Arr(seq![v]), JsonV::Str(sep)) == shown(v),
        a.len() > 0 ==> spliced(JsonV::Arr(a.push(v)), JsonV::Str(sep)) == spliced(JsonV::Arr(a), JsonV::Str(sep)) + sep
            + shown(v),
{
    reveal_with_fuel(joined, 2);
    let b = a.push(v);
    if a.len() > 0 {
        lemma_joined(a, b, sep, a.len());
    }
}

proof fn lemma_joined(a: Seq<JsonV>, b: Seq<JsonV>, sep: Seq<char>, n: nat)
    requires
        n <= a.len() <= b.len(),
        forall|k: int| 0 <= k < a.len() ==> #[trigger] a[k] == b[k],
    ensures
        joined(a, sep, n) == joined(b, sep, n),
    decreases n,
{
    if n > 1 {
        lemma_joined(a, b, sep, (n - 1) as nat);
    }
}

/// What a template finds bound: the messages, whether the answer is to be opened, and the tokens
/// that begin and end a text; tools are bound to nothing.
pub proof fn law_templates_find(messages: Seq<JsonV>, generate: bool, bos: Seq<char>, eos: Seq<char>, facts: Seq<(AskV, JsonV)>)
    ensures
        value(ExprV::Var("messages"@), initial_scope(messages, generate, bos, eos), facts) == Ok::<JsonV, HaltV>(
            JsonV::Arr(messages),
        ),
        value(ExprV::Var("add_generation_prompt"@), initial_scope(messages, generate, bos, eos), facts) == Ok::<JsonV, HaltV>(
            JsonV::Bool(generate),
        ),
        value(ExprV::Var("bos_token"@), initial_scope(messages, generate, bos, eos), facts) == Ok::<JsonV, HaltV>(
            JsonV::Str(bos),
        ),
        value(ExprV::Var("eos_token"@), initial_scope(messages, generate, bos, eos), facts) == Ok::<JsonV, HaltV>(
            JsonV::Str(eos),
        ),
        value(ExprV::Var("tools"@), initial_scope(messages, generate, bos, eos), facts) == Ok::<JsonV, HaltV>(JsonV::Null),
{
    reveal_strlit("messages");
    reveal_strlit("add_generation_prompt");
    reveal_strlit("bos_token");
    reveal_strlit("eos_token");
    reveal_strlit("tools");
    reveal_strlit("tools_in_user_message");
    assert("messages"@.len() == 8);
    assert("add_generation_prompt"@.len() == 21 && "add_generation_prompt"@[0] == 'a');
    assert("bos_token"@.len() == 9 && "bos_token"@[0] == 'b');
    assert("eos_token"@.len() == 9 && "eos_token"@[0] == 'e');
    assert("tools"@.len() == 5);
    assert("tools_in_user_message"@.len() == 21 && "tools_in_user_message"@[0] == 't');
}

/// The signs of comparisons and sums, as they are written.
pub proof fn law_signs(s: Seq<char>, i: nat, rest: Seq<char>)
    requires
        i <= s.len(),
        rest == s.subrange(i as int, s.len() as int),
        rest.len() >= 2,
        !crate::chat_expr::is_ws(rest[0]),
    ensures
        rest[0] == '=' && rest[1] == '=' ==> sign(s, i) == Some((BinOp::Eq, i + 2)),
        rest[0] == '!' && rest[1] == '=' ==> sign(s, i) == Some((BinOp::Ne, i + 2)),
        rest[0] == '>' && rest[1] == '=' ==> sign(s, i) == Some((BinOp::Ge, i + 2)),
        rest[0] == '<' && rest[1] == '=' ==> sign(s, i) == Some((BinOp::Le, i + 2)),
        rest[0] == '>' && rest[1] != '=' ==> sign(s, i) == Some((BinOp::Gt, i + 1)),
        rest[0] == '<' && rest[1] != '=' ==> sign(s, i) == Some((BinOp::Lt, i + 1)),
        rest[0] == '+' ==> sum_sign(s, i) == Some((BinOp::Plus, i + 1)),
        rest[0] == '~' ==> sum_sign(s, i) == Some((BinOp::Plus, i + 1)),
        rest[0] == '-' ==> sum_sign(s, i) == Some((BinOp::Minus, i + 1)),
{
    reveal_strlit("==");
    reveal_strlit("!=");
    reveal_strlit(">=");
    reveal_strlit("<=");
    reveal_strlit(">");
    reveal_strlit("<");
    reveal_strlit("+");
    reveal_strlit("~");
    reveal_strlit("-");
    assert(s[i as int] == rest[0] && s[i as int + 1] == rest[1]);
    assert(spaced(s, i as int) == i);
    lemma_sign(s, i, "=="@);
    lemma_sign(s, i, "!="@);
    lemma_sign(s, i, ">="@);
    lemma_sign(s, i, "<="@);
    lemma_sign(s, i, ">"@);
    lemma_sign(s, i, "<"@);
    lemma_sign(s, i, "+"@);
    lemma_sign(s, i, "~"@);
    lemma_sign(s, i, "-"@);
}

proof fn lemma_sign(s: Seq<char>, i: nat, lit: Seq<char>)
    requires
        i + 2 <= s.len(),
        !crate::chat_expr::is_ws(s[i as int]),
        1 <= lit.len() <= 2,
    ensures
        s[i as int] == lit[0] && (lit.len() == 2 ==> s[i as int + 1] == lit[1]) ==> eat(s, i, lit) == Some((i + lit.len()) as nat),
        !(s[i as int] == lit[0] && (lit.len() == 2 ==> s[i as int + 1] == lit[1])) ==> eat(s, i, lit) is None,
{
    assert(spaced(s, i as int) == i);
    let t = s.subrange(i as int, i as int + lit.len());
    assert(t[0] == s[i as int]);
    if lit.len() == 2 {
        assert(t[1] == s[i as int + 1]);
    }
    if s[i as int] == lit[0] && (lit.len() == 2 ==> s[i as int + 1] == lit[1]) {
        assert(t =~= lit);
    }
}

/// The words that stand for values; every other word is a name.
pub proof fn law_words_for_values(w: Seq<char>)
    ensures
        named("true"@) == ExprV::Lit(JsonV::Bool(true)) && named("True"@) == ExprV::Lit(JsonV::Bool(true)),
        named("false"@) == ExprV::Lit(JsonV::Bool(false)) && named("False"@) == ExprV::Lit(JsonV::Bool(false)),
        named("none"@) == ExprV::Lit(JsonV::Null) && named("None"@) == ExprV::Lit(JsonV::Null),
        w != "true"@ && w != "True"@ && w != "false"@ && w != "False"@ && w != "none"@ && w != "None"@ ==> named(w)
            == ExprV::Var(w),
{
    reveal_strlit("true");
    reveal_strlit("True");
    reveal_strlit("false");
    reveal_strlit("False");
    reveal_strlit("none");
    reveal_strlit("None");
    assert("true"@.len() == 4 && "true"@[0] == 't');
    assert("True"@.len() == 4 && "True"@[0] == 'T');
    assert("false"@.len() == 5 && "false"@[0] == 'f');
    assert("False"@.len() == 5 && "False"@[0] == 'F');
    assert("none"@.len() == 4 && "none"@[0] == 'n');
    assert("None"@.len() == 4 && "None"@[0] == 'N');
}

/// A string reads as what stands between its quotes, with `\\n`, `\\t` and `\\r` for what they stand
/// for, and any other character behind a backslash for itself.
pub proof fn law_strings_are_read(s: Seq<char>, i: nat, quote: char, val: Seq<char>)
    ensures
        i < s.len() && s[i as int] == quote ==> string_rest(s, i, quote, val) == Ok::<(Seq<char>, nat), Seq<char>>((val, i + 1)),
        i < s.len() && s[i as int] != quote && s[i as int] != '\\' ==> string_rest(s, i, quote, val) == string_rest(
            s,
            i + 1,
            quote,
            val.push(s[i as int]),
        ),
        i + 1 < s.len() && quote != '\\' && s[i as int] == '\\' && s[i as int + 1] == 'n' ==> string_rest(s, i, quote, val) == string_rest(
            s,
            i + 2,
            quote,
            val.push('\n'),
        ),
        i + 1 < s.len() && quote != '\\' && s[i as int] == '\\' && s[i as int + 1] == 't' ==> string_rest(s, i, quote, val) == string_rest(
            s,
            i + 2,
            quote,
            val.push('\t'),
        ),
        i + 1 < s.len() && quote != '\\' && s[i as int] == '\\' && s[i as int + 1] == 'r' ==> string_rest(s, i, quote, val) == string_rest(
            s,
            i + 2,
            quote,
            val.push('\r'),
        ),
        i + 1 < s.len() && quote != '\\' && s[i as int] == '\\' && s[i as int + 1] != 'n' && s[i as int + 1] != 't' && s[i as int + 1] != 'r'
            ==> string_rest(s, i, quote, val) == string_rest(s, i + 2, quote, val.push(s[i as int + 1])),
        i >= s.len() ==> string_rest(s, i, quote, val) is Err,
{
}

/// What stands between double braces is an expression, between percent signs a tag, and between
/// hashes nothing at all; what stands before is text.
pub proof fn law_pieces_are_cut(s: Seq<char>, i: int, body: Seq<char>, kind: char, rest: Seq<char>, text: Seq<char>)
    requires
        0 <= i,
        kind == '{' || kind == '%' || kind == '#',
        i <= s.len(),
        s.subrange(i, s.len() as int) == seq!['{', kind] + body + seq![if kind == '{' { '}' } else { kind }, '}'] + rest,
        forall|k: int| 0 <= k < body.len() ==> #[trigger] body[k] != (if kind == '{' { '}' } else { kind }),
    ensures
        kind == '#' ==> cut(s, i, text) == cut(s, i + body.len() + 4, text),
        kind != '#' ==> cut(s, i, text) == (match cut(s, i + body.len() + 4, Seq::empty()) {
            Err(e) => Err(e),
            Ok(more) => Ok((if text.len() > 0 { seq![PieceV::Text(text)] } else { Seq::empty() }) + seq![piece_of(body, kind)] + more),
        }),
{
    reveal_strlit("}}");
    reveal_strlit("%}");
    reveal_strlit("#}");
    let c = if kind == '{' { '}' } else { kind };
    let all = s.subrange(i, s.len() as int);
    let n = body.len() as int;
    let open = seq!['{', kind];
    let shut = seq![c, '}'];
    assert(all == open + body + shut + rest);
    assert(all.len() == n + 4 + rest.len());
    assert(all[0] == '{' && all[1] == kind && all[n + 2] == c && all[n + 3] == '}');
    assert forall|k: int| 0 <= k < n implies #[trigger] all[2 + k] == body[k] by {}
    assert(s[i] == all[0] && s[i as int + 1] == all[1]);
    let end = i + 2 + body.len();
    let close = crate::chat_lex::closer(kind);
    assert(s[end] == all[n + 2] && s[end + 1] == all[n + 3]);
    assert(close.len() == 2 && close[0] == c && close[1] == '}');
    assert(s.subrange(end, end + 2) =~= close);
    assert forall|k: int| i + 2 <= k < end implies !is_at(s, k, close) by {
        if is_at(s, k, close) {
            assert(s.subrange(k, k + 2)[0] == close[0]);
            assert(s[k] == all[k - i]);
            assert(all[2 + (k - i - 2)] == body[k - i - 2]);
        }
    }
    lemma_first(s, close, i + 2, end);
    assert(s.subrange(i + 2, end) =~= body) by {
        assert forall|k: int| 0 <= k < body.len() implies s.subrange(i + 2, end)[k] == body[k] by {
            assert(s[i + 2 + k] == all[2 + k]);
        }
    }
    assert(opens(s, i));
}

proof fn lemma_first(s: Seq<char>, p: Seq<char>, from: int, at: int)
    requires
        0 <= from <= at,
        is_at(s, at, p),
        forall|k: int| from <= k < at ==> !is_at(s, k, p),
    ensures
        crate::text::first_at(s, from, p) == Some(at),
    decreases at - from,
{
    if from < at {
        lemma_first(s, p, from + 1, at);
    }
}

/// A dash inside a delimiter marks the side whose whitespace goes, and is no part of what stands
/// there.
pub proof fn law_dashes_are_marks(raw: Seq<char>, kind: char)
    ensures
        kind == '{' ==> piece_of(raw, kind) is Out && piece_of(raw, kind)->Out_1 == (raw.len() > 0 && raw[0] == '-')
            && piece_of(raw, kind)->Out_2 == (raw.len() > 0 && raw[raw.len() - 1] == '-'),
        kind == '%' ==> piece_of(raw, kind) is Tag && piece_of(raw, kind)->Tag_1 == (raw.len() > 0 && raw[0] == '-')
            && piece_of(raw, kind)->Tag_2 == (raw.len() > 0 && raw[raw.len() - 1] == '-'),
{
}

/// Whitespace control: text loses its trailing whitespace before a piece that is marked on its left,
/// its leading whitespace behind one that is marked on its right, and else nothing.
pub proof fn law_whitespace_is_controlled(p: Seq<PieceV>, k: int, t: Seq<char>)
    requires
        0 < k < p.len() - 1,
        p[k] == PieceV::Text(t),
    ensures
        !p[k - 1].strips_right() && !p[k + 1].strips_left() ==> controlled_piece(p, k) == PieceV::Text(t),
        !p[k - 1].strips_right() && p[k + 1].strips_left() ==> controlled_piece(p, k) == PieceV::Text(strip_end(t, Blank::Space)),
        p[k - 1].strips_right() && !p[k + 1].strips_left() ==> controlled_piece(p, k) == PieceV::Text(strip_start(t, Blank::Space)),
        p[k - 1].strips_right() && p[k + 1].strips_left() ==> controlled_piece(p, k) == PieceV::Text(
            strip_start(strip_end(t, Blank::Space), Blank::Space),
        ),
        forall|s: Seq<char>, l: bool, r: bool|
            #[trigger] PieceV::Out(s, l, r).strips_left() == l && PieceV::Out(s, l, r).strips_right() == r,
        forall|s: Seq<char>, l: bool, r: bool|
            #[trigger] PieceV::Tag(s, l, r).strips_left() == l && PieceV::Tag(s, l, r).strips_right() == r,
{
}

/// A message with a role and a text.
pub open spec fn says(m: JsonV, role: Seq<char>, text: Seq<char>) -> bool {
    m.get("role"@) == Some(JsonV::Str(role)) && m.get("content"@) == Some(JsonV::Str(text))
}

/// In the ChatML format each turn stands between its markers, under its role, and the answer is
/// opened behind the last turn.
pub proof fn law_chatml_turns(m: Seq<JsonV>, n: nat, text: Seq<char>, f: ChatFormatV)
    requires
        format_named("chatml"@) == Some(f),
        0 < n <= m.len(),
    ensures
        f.turns(m, 0) == Ok::<(Seq<char>, Seq<char>), Seq<char>>((""@, ""@)),
        f.turns(m, (n - 1) as nat) matches Ok(p) ==> p.1.len() == 0 && {
            &&& says(m[n - 1], "system"@, text) ==> f.turns(m, n) == Ok::<(Seq<char>, Seq<char>), Seq<char>>(
                (p.0 + "<|im_start|>system\n"@ + text + "<|im_end|>\n"@, p.1),
            )
            &&& says(m[n - 1], "user"@, text) ==> f.turns(m, n) == Ok::<(Seq<char>, Seq<char>), Seq<char>>(
                (p.0 + "<|im_start|>user\n"@ + text + "<|im_end|>\n"@, p.1),
            )
            &&& says(m[n - 1], "assistant"@, text) ==> f.turns(m, n) == Ok::<(Seq<char>, Seq<char>), Seq<char>>(
                (p.0 + "<|im_start|>assistant\n"@ + text + "<|im_end|>\n"@, p.1),
            )
        },
        f.rendered(m) matches Ok(out) ==> f.turns(m, m.len()) matches Ok(p) && out == p.0 + "<|im_start|>assistant\n"@,
{
    reveal_strlit("chatml");
    reveal_strlit("llama3");
    reveal_strlit("mistral");
    reveal_strlit("system");
    reveal_strlit("assistant");
    reveal_strlit("user");
    reveal_strlit("tool");
    reveal_strlit("function");
    assert("chatml"@.len() == 6 && "chatml"@[0] == 'c');
    assert("llama3"@.len() == 6 && "llama3"@[0] == 'l');
    assert("mistral"@.len() == 7);
    assert("system"@.len() == 6 && "system"@[0] == 's');
    assert("assistant"@.len() == 9);
    assert("user"@.len() == 4 && "user"@[0] == 'u');
    assert("tool"@.len() == 4 && "tool"@[0] == 't');
    assert("function"@.len() == 8);
    reveal_strlit("");
    lemma_nothing_waits(f, m, (n - 1) as nat);
}

/// In the Llama 3 format each turn stands behind its header and before its end marker, behind the
/// marker that begins a text, and the answer's header behind the last turn.
pub proof fn law_llama3_turns(m: Seq<JsonV>, n: nat, text: Seq<char>, f: ChatFormatV)
    requires
        format_named("llama3"@) == Some(f),
        0 < n <= m.len(),
    ensures
        f.turns(m, 0) == Ok::<(Seq<char>, Seq<char>), Seq<char>>(("<|begin_of_text|>"@, ""@)),
        f.turns(m, (n - 1) as nat) matches Ok(p) ==> p.1.len() == 0 && {
            &&& says(m[n - 1], "system"@, text) ==> f.turns(m, n) == Ok::<(Seq<char>, Seq<char>), Seq<char>>(
                (p.0 + "<|start_header_id|>system<|end_header_id|>\n\n"@ + text + "<|eot_id|>"@, p.1),
            )
            &&& says(m[n - 1], "user"@, text) ==> f.turns(m, n) == Ok::<(Seq<char>, Seq<char>), Seq<char>>(
                (p.0 + "<|start_header_id|>user<|end_header_id|>\n\n"@ + text + "<|eot_id|>"@, p.1),
            )
            &&& says(m[n - 1], "assistant"@, text) ==> f.turns(m, n) == Ok::<(Seq<char>, Seq<char>), Seq<char>>(
                (p.0 + "<|start_header_id|>assistant<|end_header_id|>\n\n"@ + text + "<|eot_id|>"@, p.1),
            )
        },
        f.rendered(m) matches Ok(out) ==> f.turns(m, m.len()) matches Ok(p) && out == p.0 + "<|start_header_id|>assistant<|end_header_id|>\n\n"@,
{
    reveal_strlit("chatml");
    reveal_strlit("llama3");
    reveal_strlit("mistral");
    reveal_strlit("system");
    reveal_strlit("assistant");
    reveal_strlit("user");
    reveal_strlit("tool");
    reveal_strlit("function");
    assert("chatml"@.len() == 6 && "chatml"@[0] == 'c');
    assert("llama3"@.len() == 6 && "llama3"@[0] == 'l');
    assert("mistral"@.len() == 7);
    assert("system"@.len() == 6 && "system"@[0] == 's');
    assert("assistant"@.len() == 9);
    assert("user"@.len() == 4 && "user"@[0] == 'u');
    assert("tool"@.len() == 4 && "tool"@[0] == 't');
    assert("function"@.len() == 8);
    reveal_strlit("");
    lemma_nothing_waits(f, m, (n - 1) as nat);
}

/// Where system text has a turn of its own, none waits for a user turn.
proof fn lemma_nothing_waits(f: ChatFormatV, m: Seq<JsonV>, n: nat)
    requires
        !f.fold_system,
    ensures
        f.turns(m, n) matches Ok(p) ==> p.1.len() == 0,
    decreases n,
{
    reveal_strlit("");
    if 0 < n <= m.len() {
        lemma_nothing_waits(f, m, (n - 1) as nat);
    }
}

/// In the Mistral format a user turn stands between instruction markers, an answer is ended, and
/// system text joins the next user turn with an empty line between; the answer needs no opening.
pub proof fn law_mistral_turns(m: Seq<JsonV>, n: nat, text: Seq<char>, f: ChatFormatV)
    requires
        format_named("mistral"@) == Some(f),
        0 < n <= m.len(),
    ensures
        f.turns(m, 0) == Ok::<(Seq<char>, Seq<char>), Seq<char>>(("<s>"@, ""@)),
        f.turns(m, (n - 1) as nat) matches Ok(p) ==> {
            &&& says(m[n - 1], "system"@, text) ==> f.turns(m, n) == Ok::<(Seq<char>, Seq<char>), Seq<char>>(
                (p.0, text + "\n\n"@),
            )
            &&& says(m[n - 1], "user"@, text) && p.1.len() > 0 ==> f.turns(m, n) == Ok::<(Seq<char>, Seq<char>), Seq<char>>(
                (p.0 + "[INST] "@ + (p.1 + text) + " [/INST]"@, ""@),
            )
            &&& says(m[n - 1], "user"@, text) && p.1.len() == 0 ==> f.turns(m, n) == Ok::<(Seq<char>, Seq<char>), Seq<char>>(
                (p.0 + "[INST] "@ + text + " [/INST]"@, p.1),
            )
            &&& says(m[n - 1], "assistant"@, text) ==> f.turns(m, n) == Ok::<(Seq<char>, Seq<char>), Seq<char>>(
                (p.0 + ""@ + text + "</s> "@, p.1),
            )
        },
        f.rendered(m) matches Ok(out) ==> f.turns(m, m.len()) matches Ok(p) && out == p.0 + ""@,
{
    reveal_strlit("chatml");
    reveal_strlit("llama3");
    reveal_strlit("mistral");
    reveal_strlit("system");
    reveal_strlit("assistant");
    reveal_strlit("user");
    reveal_strlit("tool");
    reveal_strlit("function");
    assert("chatml"@.len() == 6 && "chatml"@[0] == 'c');
    assert("llama3"@.len() == 6 && "llama3"@[0] == 'l');
    assert("mistral"@.len() == 7);
    assert("system"@.len() == 6 && "system"@[0] == 's');
    assert("assistant"@.len() == 9);
    assert("user"@.len() == 4 && "user"@[0] == 'u');
    assert("tool"@.len() == 4 && "tool"@[0] == 't');
    assert("function"@.len() == 8);
}

/// A message with a role that no format knows is refused; one without a role is a user's.
pub proof fn law_roles(f: ChatFormatV, m: Seq<JsonV>, role: Seq<char>)
    requires
        m.len() == 1,
    ensures
        m[0].get("role"@) == Some(JsonV::Str(role)) && role != "system"@ && role != "user"@ && role != "assistant"@ && role
            != "tool"@ && role != "function"@ ==> f.rendered(m) == Err::<Seq<char>, Seq<char>>("unsupported role: "@ + role),
        m[0].get("role"@) is None ==> role_of(m[0]) == "user"@,
        m[0].get("content"@) is None ==> content_of(m[0]) == ""@,
{
    reveal_with_fuel(ChatFormatV::turns, 2);
}

/// A format is told by the control tokens of a vocabulary.
pub proof fn law_formats_are_detected(t: TokenizerV)
    ensures
        t.vocab.dom().contains("<|im_start|>"@) ==> format_shown(t) == format_named("chatml"@),
        !t.vocab.dom().contains("<|im_start|>"@) && t.vocab.dom().contains("<|start_header_id|>"@) ==> format_shown(t)
            == format_named("llama3"@),
        !t.vocab.dom().contains("<|im_start|>"@) && !t.vocab.dom().contains("<|start_header_id|>"@) && t.vocab.dom().contains(
            "[/INST]"@,
        ) ==> format_shown(t) == format_named("mistral"@),
        !t.vocab.dom().contains("<|im_start|>"@) && !t.vocab.dom().contains("<|start_header_id|>"@) && !t.vocab.dom().contains(
            "[/INST]"@,
        ) ==> format_shown(t) is None,
{
    reveal_strlit("chatml");
    reveal_strlit("llama3");
    reveal_strlit("mistral");
    assert("chatml"@.len() == 6 && "chatml"@[0] == 'c');
    assert("llama3"@.len() == 6 && "llama3"@[0] == 'l');
    assert("mistral"@.len() == 7);
}

} // verus!
