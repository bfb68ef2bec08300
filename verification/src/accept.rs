//! What constrained decoding lets through: every document of the shape that was asked for,
//! as long as it nests no deeper than the automaton can follow.

use vstd::prelude::*;
use crate::automaton::{
    begin, choose_one, fed_all, finish, is_complete, is_digit, is_space, key_options, keys_from, law_failure_is_final,
    law_split, lemma_settled, may_end, narrow, settle, settled_from, some_alive, started, step, with_top, words,
    ArrPhase, FrameV, Num, ObjPhase, Property, Shape, BACKSLASH, CLOSE_BRACE, CLOSE_BRACKET, COLON, COMMA, DOT,
    MAX_DEPTH, MAX_HANDOVERS, MINUS, OPEN_BRACE, OPEN_BRACKET, QUOTE, ZERO,
};
use crate::document::{
    all_space, follows, in_bounds, is_array, is_fraction, is_key, is_list, is_mantissa, is_member, is_members,
    is_number, is_object, is_padded, is_scientific, is_string, is_text, is_value, is_whole, law_documents_conform,
    lemma_number_ends, lemma_number_goes_on, magnitude, may_come, may_end_behind, number_so_far, opens, power, shape_at,
};
use crate::progress::{entered, lemma_between, next_shape, wanted};

verus! {

/// A byte that can stand behind a value.
pub open spec fn ends_value(b: u8) -> bool {
    is_space(b) || b == COMMA || b == CLOSE_BRACKET || b == CLOSE_BRACE
}

/// A byte that can stand behind a key.
pub open spec fn ends_key(b: u8) -> bool {
    is_space(b) || b == COLON
}

/// Whether a value is not cut short by another: none of them goes on, where another ends,
/// with a byte that can stand behind a value.
pub open spec fn clear_values(options: Seq<Seq<u8>>) -> bool {
    forall|i: int, j: int|
        #![trigger options[i], options[j]]
        0 <= i < options.len() && 0 <= j < options.len() && options[j].len() > options[i].len() && options[j].take(
            options[i].len() as int,
        ) == options[i] ==> !ends_value(options[j][options[i].len() as int])
}

/// Whether a key is not cut short by another, and no two are the same.
pub open spec fn clear_keys(keys: Seq<Seq<u8>>) -> bool {
    &&& forall|i: int, j: int|
        #![trigger keys[i], keys[j]]
        0 <= i < keys.len() && 0 <= j < keys.len() && keys[j].len() > keys[i].len() && keys[j].take(keys[i].len() as int)
            == keys[i] ==> !ends_key(keys[j][keys[i].len() as int])
    &&& forall|i: int, j: int| 0 <= i < j < keys.len() ==> keys[i] != keys[j]
}

/// Whether a shape is written as JSON is: its values and keys are not cut short by one
/// another, values begin as values do, and keys with a quote.
pub open spec fn is_clear(shape: Shape, room: int) -> bool
    decreases room,
{
    if room < 1 {
        true
    } else {
        match shape {
            Shape::Enum(options) => clear_values(options) && forall|i: int|
                0 <= i < options.len() ==> (#[trigger] options[i]).len() > 0 && !is_space(options[i][0]) && options[i][0]
                    != CLOSE_BRACKET,
            Shape::Object(props) => {
                &&& clear_keys(key_options(props))
                &&& forall|i: int| 0 <= i < props.len() ==> (#[trigger] props[i]).key.len() > 0 && props[i].key[0] == QUOTE
                &&& forall|i: int| 0 <= i < props.len() ==> is_clear((#[trigger] props[i]).shape, room - 1)
            },
            Shape::Array { items, .. } => is_clear(*items, room - 1),
            _ => true,
        }
    }
}

// ---------------------------------------------------------------------- bytes

proof fn lemma_one(s: Seq<FrameV>, b: u8)
    ensures
        fed_all(Some(s), seq![b]) == step(s, b, MAX_HANDOVERS as nat),
{
    let v = seq![b];
    assert(v.drop_last() =~= Seq::<u8>::empty());
    assert(fed_all(Some(s), v.drop_last()) == Some(s));
}

proof fn lemma_first(s: Seq<FrameV>, v: Seq<u8>)
    requires
        v.len() > 0,
    ensures
        fed_all(Some(s), v) == fed_all(step(s, v[0], MAX_HANDOVERS as nat), v.skip(1)),
{
    lemma_one(s, v[0]);
    law_split(Some(s), seq![v[0]], v.skip(1));
    assert(seq![v[0]] + v.skip(1) =~= v);
}

proof fn lemma_parts(s: Seq<FrameV>, v: Seq<u8>, k: int)
    requires
        0 <= k <= v.len(),
    ensures
        fed_all(Some(s), v) == fed_all(fed_all(Some(s), v.take(k)), v.skip(k)),
{
    law_split(Some(s), v.take(k), v.skip(k));
    assert(v.take(k) + v.skip(k) =~= v);
}

/// Whitespace between scalars changes nothing.
proof fn lemma_spaces(s: Seq<FrameV>, v: Seq<u8>)
    requires
        s.len() > 0,
        s.last() is Root || s.last() is Obj || s.last() is Arr,
        all_space(v),
    ensures
        fed_all(Some(s), v) == Some(s),
    decreases v.len(),
{
    if v.len() > 0 {
        let w = v.drop_last();
        assert forall|i: int| 0 <= i < w.len() implies is_space(#[trigger] w[i]) by {
            assert(w[i] == v[i]);
        }
        lemma_spaces(s, w);
        assert(is_space(v[v.len() - 1]));
    }
}

// -------------------------------------------------------------------- scalars

/// The inside of a string is read inside it.
proof fn lemma_text(s: Seq<FrameV>, v: Seq<u8>)
    requires
        s.len() > 0,
        s.last() == (FrameV::Str { escape: false, hex: 0 }),
        is_text(v),
    ensures
        fed_all(Some(s), v) == Some(s),
    decreases v.len(),
{
    let inside = FrameV::Str { escape: false, hex: 0 };
    if v.len() > 0 {
        if v[0] == BACKSLASH {
            let a = with_top(s, FrameV::Str { escape: true, hex: 0 });
            let rest = v.skip(1);
            lemma_first(s, v);
            assert(step(s, BACKSLASH, MAX_HANDOVERS as nat) == Some(a));
            lemma_first(a, rest);
            assert(rest[0] == v[1]);
            assert(rest.skip(1) =~= v.skip(2));
            if v.len() >= 6 && v[1] == 117 {
                let b4 = with_top(s, FrameV::Str { escape: false, hex: 4 });
                let b3 = with_top(s, FrameV::Str { escape: false, hex: 3 });
                let b2 = with_top(s, FrameV::Str { escape: false, hex: 2 });
                let b1 = with_top(s, FrameV::Str { escape: false, hex: 1 });
                assert(with_top(a, FrameV::Str { escape: false, hex: 4 }) =~= b4);
                assert(step(a, 117, MAX_HANDOVERS as nat) == Some(b4));
                lemma_first(b4, v.skip(2));
                assert(with_top(b4, FrameV::Str { escape: false, hex: 3 }) =~= b3);
                assert(step(b4, v[2], MAX_HANDOVERS as nat) == Some(b3));
                assert(v.skip(2).skip(1) =~= v.skip(3));
                lemma_first(b3, v.skip(3));
                assert(with_top(b3, FrameV::Str { escape: false, hex: 2 }) =~= b2);
                assert(step(b3, v[3], MAX_HANDOVERS as nat) == Some(b2));
                assert(v.skip(3).skip(1) =~= v.skip(4));
                lemma_first(b2, v.skip(4));
                assert(with_top(b2, FrameV::Str { escape: false, hex: 1 }) =~= b1);
                assert(step(b2, v[4], MAX_HANDOVERS as nat) == Some(b1));
                assert(v.skip(4).skip(1) =~= v.skip(5));
                lemma_first(b1, v.skip(5));
                assert(with_top(b1, inside) =~= s);
                assert(step(b1, v[5], MAX_HANDOVERS as nat) == Some(s));
                assert(v.skip(5).skip(1) =~= v.skip(6));
                lemma_text(s, v.skip(6));
            } else {
                assert(with_top(a, inside) =~= s);
                assert(step(a, v[1], MAX_HANDOVERS as nat) == Some(s));
                lemma_text(s, v.skip(2));
            }
        } else {
            lemma_first(s, v);
            assert(step(s, v[0], MAX_HANDOVERS as nat) == Some(s));
            lemma_text(s, v.skip(1));
        }
    }
}

/// A string, behind its first quote, is read to its end.
proof fn lemma_string(e: Seq<FrameV>, v: Seq<u8>)
    requires
        is_string(v),
        finish(e, None) is Some,
    ensures
        fed_all(Some(e.push(FrameV::Str { escape: false, hex: 0 })), v.skip(1)) == finish(e, None),
{
    let s = e.push(FrameV::Str { escape: false, hex: 0 });
    let w = v.skip(1);
    lemma_parts(s, w, w.len() - 1);
    assert(w.take(w.len() - 1) =~= v.subrange(1, v.len() - 1));
    lemma_text(s, w.take(w.len() - 1));
    assert(w.skip(w.len() - 1) =~= seq![QUOTE]);
    lemma_one(s, QUOTE);
    assert(s.drop_last() =~= e);
}

/// Where the bytes of a number lead, fed one after another from the beginning; nothing
/// where one of them is no part of a number.
pub open spec fn number_run(v: Seq<u8>, integer: bool) -> Option<Num>
    decreases v.len(),
{
    if v.len() == 0 {
        Some(Num::Lead)
    } else {
        match number_run(v.drop_last(), integer) {
            Some(n) => n.after(v.last(), integer),
            None => None,
        }
    }
}

/// The digits of a whole number lead to its end.
proof fn lemma_whole_run(v: Seq<u8>, integer: bool)
    requires
        is_whole(v),
    ensures
        number_run(v, integer) == Some(Num::Int) || number_run(v, integer) == Some(Num::Zero),
        magnitude(v)[0] != ZERO ==> number_run(v, integer) == Some(Num::Int),
    decreases v.len(),
{
    let d = magnitude(v);
    let w = v.drop_last();
    let b = v.last();
    assert(d.last() == b);
    assert(is_digit(d[d.len() - 1]));
    if d.len() == 1 {
        if w.len() == 0 {
            assert(number_run(w, integer) == Some(Num::Lead));
        } else {
            assert(w =~= seq![MINUS]);
            assert(w.drop_last() =~= Seq::<u8>::empty());
            assert(number_run(w.drop_last(), integer) == Some(Num::Lead));
            assert(number_run(w, integer) == Some(Num::Sign));
        }
        assert(d[0] == b);
    } else {
        assert(magnitude(w) =~= d.drop_last());
        assert(is_whole(w));
        assert(magnitude(w)[0] == d[0]);
        lemma_whole_run(w, integer);
    }
}

proof fn lemma_fraction_run(v: Seq<u8>, k: int)
    requires
        is_fraction(v, k),
    ensures
        number_run(v, false) == Some(Num::Frac),
    decreases v.len(),
{
    let w = v.drop_last();
    let tail = v.skip(k + 1);
    assert(is_digit(tail[tail.len() - 1]));
    if k == v.len() - 2 {
        assert(w.drop_last() =~= v.take(k));
        lemma_whole_run(v.take(k), false);
        assert(w.last() == DOT);
        assert(number_run(w, false) == Some(Num::Dot));
    } else {
        assert(w.take(k) =~= v.take(k));
        assert(w.skip(k + 1) =~= tail.drop_last());
        assert forall|i: int| 0 <= i < w.skip(k + 1).len() implies is_digit(#[trigger] w.skip(k + 1)[i]) by {
            assert(is_digit(tail[i]));
        }
        lemma_fraction_run(w, k);
    }
}

proof fn lemma_scientific_run(v: Seq<u8>, k: int)
    requires
        is_scientific(v, k),
    ensures
        number_run(v, false) == Some(Num::ExpDigits),
    decreases v.len(),
{
    let w = v.drop_last();
    let tail = v.skip(k + 1);
    let d = power(tail);
    assert(is_digit(d[d.len() - 1]));
    assert(d.last() == v.last());
    if d.len() == 1 {
        let m = v.take(k);
        if is_whole(m) {
            lemma_whole_run(m, false);
        } else {
            lemma_fraction_run(m, choose|j: int| is_fraction(m, j));
        }
        let head = v.take(k + 1);
        assert(head.drop_last() =~= m);
        assert(head.last() == v[k]);
        assert(number_run(head, false) == Some(Num::Exp));
        if tail.len() == 1 {
            assert(w =~= head);
        } else {
            assert(w.drop_last() =~= head);
            assert(w.last() == tail[0]);
            assert(number_run(w, false) == Some(Num::ExpSign));
        }
    } else {
        assert(w.take(k) =~= v.take(k));
        assert(w.skip(k + 1) =~= tail.drop_last());
        assert(power(w.skip(k + 1)) =~= d.drop_last());
        assert forall|i: int| 0 <= i < power(w.skip(k + 1)).len() implies is_digit(#[trigger] power(w.skip(k + 1))[i]) by {
            assert(is_digit(d[i]));
        }
        lemma_scientific_run(w, k);
    }
}

/// A number leads to where it can end.
proof fn lemma_number_run(v: Seq<u8>, integer: bool)
    requires
        is_number(v, integer),
    ensures
        number_run(v, integer) matches Some(n) && n.ends(),
{
    if is_whole(v) {
        lemma_whole_run(v, integer);
    } else if is_mantissa(v) {
        lemma_fraction_run(v, choose|k: int| is_fraction(v, k));
    } else {
        lemma_scientific_run(v, choose|k: int| is_scientific(v, k));
    }
}

/// What has been fed is a number so far.
proof fn lemma_number_so_far(v: Seq<u8>, integer: bool)
    requires
        number_run(v, integer) is Some,
    ensures
        number_so_far(v, number_run(v, integer)->0, integer),
    decreases v.len(),
{
    if v.len() > 0 {
        lemma_number_so_far(v.drop_last(), integer);
        lemma_number_goes_on(v.drop_last(), v.last(), number_run(v.drop_last(), integer)->0, integer);
        assert(v.drop_last().push(v.last()) =~= v);
    }
}

/// The numbers that are read are exactly those of JSON: bytes lead to where a number can
/// end just where they are one, and lead anywhere just where a number begins with them.
pub proof fn law_numbers_are_exactly_numbers(v: Seq<u8>, integer: bool)
    ensures
        (number_run(v, integer) matches Some(n) && n.ends()) <==> is_number(v, integer),
        number_run(v, integer) is Some <==> exists|w: Seq<u8>|
            #[trigger] is_number(w, integer) && v.len() <= w.len() && w.take(v.len() as int) == v,
{
    if is_number(v, integer) {
        lemma_number_run(v, integer);
    }
    if number_run(v, integer) is Some {
        let n = number_run(v, integer)->0;
        lemma_number_so_far(v, integer);
        if n.ends() {
            lemma_number_ends(v, n, integer);
            assert(v.take(v.len() as int) =~= v);
        } else {
            let w = v.push(ZERO);
            assert(w.drop_last() =~= v);
            assert(number_run(w, integer) == n.after(ZERO, integer));
            lemma_number_so_far(w, integer);
            lemma_number_ends(w, number_run(w, integer)->0, integer);
            assert(w.take(v.len() as int) =~= v);
        }
    }
    if exists|w: Seq<u8>| #[trigger] is_number(w, integer) && v.len() <= w.len() && w.take(v.len() as int) == v {
        let w = choose|w: Seq<u8>| #[trigger] is_number(w, integer) && v.len() <= w.len() && w.take(v.len() as int) == v;
        lemma_number_run(w, integer);
        lemma_prefix_runs(w, integer, v.len() as int);
    }
}

/// The bytes of a number are read by the frame that reads it.
proof fn lemma_number_fed(e: Seq<FrameV>, v: Seq<u8>, integer: bool)
    requires
        number_run(v, integer) is Some,
    ensures
        fed_all(Some(e.push(FrameV::Num { state: Num::Lead, integer })), v) == Some(
            e.push(FrameV::Num { state: number_run(v, integer)->0, integer }),
        ),
    decreases v.len(),
{
    let s = e.push(FrameV::Num { state: Num::Lead, integer });
    if v.len() > 0 {
        lemma_number_fed(e, v.drop_last(), integer);
        let n = number_run(v.drop_last(), integer)->0;
        let t = e.push(FrameV::Num { state: n, integer });
        let u = e.push(FrameV::Num { state: number_run(v, integer)->0, integer });
        assert(with_top(t, u.last()) =~= u);
    }
}

/// The alternatives that begin with the given bytes.
spec fn beginning_with(options: Seq<Seq<u8>>, alive: Set<int>, v: Seq<u8>) -> Set<int> {
    Set::new(
        |i: int|
            alive.contains(i) && 0 <= i < options.len() && options[i].len() >= v.len() && options[i].take(v.len() as int) == v,
    )
}

proof fn lemma_narrowed(options: Seq<Seq<u8>>, alive: Set<int>, v: Seq<u8>, b: u8)
    ensures
        narrow(options, beginning_with(options, alive, v), v.len() as int, b) == beginning_with(options, alive, v.push(b)),
{
    let n = v.len() as int;
    assert forall|i: int|
        narrow(options, beginning_with(options, alive, v), n, b).contains(i) == beginning_with(
            options,
            alive,
            v.push(b),
        ).contains(i) by {
        if 0 <= i < options.len() && options[i].len() > n {
            assert(options[i].take(n + 1) =~= options[i].take(n).push(options[i][n]));
            if options[i].take(n + 1) == v.push(b) {
                assert(options[i].take(n) =~= v.push(b).take(n));
                assert(v.push(b).take(n) =~= v);
                assert(v.push(b)[n] == b);
                assert(options[i].take(n + 1)[n] == b);
            }
        }
    }
    assert(narrow(options, beginning_with(options, alive, v), n, b) =~= beginning_with(options, alive, v.push(b)));
}

/// The bytes of an alternative are read by the frame that chooses.
proof fn lemma_choice_fed(e: Seq<FrameV>, options: Seq<Seq<u8>>, alive: Set<int>, i: int, n: nat)
    requires
        alive.contains(i),
        forall|j: int| #[trigger] alive.contains(j) ==> 0 <= j < options.len(),
        n <= options[i].len(),
    ensures
        fed_all(Some(e.push(FrameV::Choice { options, alive, at: 0 })), options[i].take(n as int)) == Some(
            e.push(FrameV::Choice { options, alive: beginning_with(options, alive, options[i].take(n as int)), at: n as int }),
        ),
    decreases n,
{
    let s = e.push(FrameV::Choice { options, alive, at: 0 });
    let v = options[i].take(n as int);
    if n == 0 {
        assert(v.len() == 0);
        assert forall|j: int| alive.contains(j) == beginning_with(options, alive, v).contains(j) by {
            if alive.contains(j) {
                assert(options[j].take(0) =~= v);
            }
        }
        assert(beginning_with(options, alive, v) =~= alive);
    } else {
        lemma_choice_fed(e, options, alive, i, (n - 1) as nat);
        let w = v.drop_last();
        let b = v.last();
        assert(w =~= options[i].take(n - 1));
        assert(v =~= w.push(b));
        lemma_narrowed(options, alive, w, b);
        let before = beginning_with(options, alive, w);
        let now = beginning_with(options, alive, v);
        assert(now.contains(i));
        let t = e.push(FrameV::Choice { options, alive: before, at: n - 1 });
        let u = e.push(FrameV::Choice { options, alive: now, at: n as int });
        assert(with_top(t, u.last()) =~= u);
        assert(w.len() == n - 1);
        assert(step(t, b, MAX_HANDOVERS as nat) == Some(u));
    }
}

// --------------------------------------------------------------------- values

/// Whether a stack waits for a value.
spec fn wants_value(e: Seq<FrameV>) -> bool {
    e.len() > 0 && match e.last() {
        FrameV::Root { started, .. } => started,
        FrameV::Obj { phase, .. } => phase is InValue,
        FrameV::Arr { phase, .. } => phase is InValue,
        _ => false,
    }
}

/// The stack that waited for a value, and has it.
spec fn given(e: Seq<FrameV>) -> Seq<FrameV> {
    finish(e, None)->0
}

/// Whether a stack has read the value that another waits for; a number or a choice is
/// closed by what follows it.
spec fn has_read(t: Seq<FrameV>, e: Seq<FrameV>) -> bool {
    t == given(e) || (t.len() == e.len() + 1 && t.drop_last() == e && match t.last() {
        FrameV::Num { state, .. } => state.ends(),
        FrameV::Choice { options, alive, at } => {
            &&& settled_from(options, alive, at, 0) is Some
            &&& forall|j: int| #[trigger] alive.contains(j) ==> 0 <= j < options.len() && (options[j].len() > at ==>
                !ends_value(options[j][at]))
        },
        _ => false,
    })
}

/// A byte that can stand behind a value closes it.
proof fn lemma_ends(t: Seq<FrameV>, e: Seq<FrameV>, b: u8)
    requires
        wants_value(e),
        has_read(t, e),
        ends_value(b),
    ensures
        step(t, b, MAX_HANDOVERS as nat) == step(given(e), b, MAX_HANDOVERS as nat),
{
    let g = given(e);
    let less = (MAX_HANDOVERS - 1) as nat;
    assert(forall|m: Option<int>| #[trigger] finish(e, m) == Some(g));
    if t != g {
        lemma_fuel(g, b);
        match t.last() {
            FrameV::Num { state, integer } => {
                assert(state.after(b, integer) is None);
                assert(step(t, b, MAX_HANDOVERS as nat) == step(g, b, less));
            },
            FrameV::Choice { options, alive, at } => {
                let narrowed = narrow(options, alive, at, b);
                assert forall|j: int| !narrowed.contains(j) by {
                    if narrowed.contains(j) {
                        assert(alive.contains(j));
                    }
                }
                let k = settled_from(options, alive, at, 0)->0;
                assert(finish(e, Some(k)) == Some(g));
                assert(step(t, b, MAX_HANDOVERS as nat) == step(g, b, less));
            },
            _ => {},
        }
    }
}

/// A byte behind a value is read by one frame alone.
proof fn lemma_fuel(g: Seq<FrameV>, b: u8)
    requires
        g.len() > 0,
        match g.last() {
            FrameV::Root { started, .. } => started,
            FrameV::Obj { phase, .. } => phase is CommaOrEnd,
            FrameV::Arr { phase, .. } => phase is CommaOrEnd,
            _ => false,
        },
        ends_value(b),
    ensures
        step(g, b, (MAX_HANDOVERS - 1) as nat) == step(g, b, MAX_HANDOVERS as nat),
{
    let less = (MAX_HANDOVERS - 1) as nat;
    let more = MAX_HANDOVERS as nat;
    if !is_space(b) {
        assert(step(g, b, less) == crate::automaton::structure(g, b, less));
        assert(step(g, b, more) == crate::automaton::structure(g, b, more));
    }
}

/// Whitespace behind a value is read behind it.
proof fn lemma_trailing(t: Seq<FrameV>, e: Seq<FrameV>, v: Seq<u8>)
    requires
        wants_value(e),
        has_read(t, e),
        all_space(v),
    ensures
        fed_all(Some(t), v) matches Some(u) && has_read(u, e),
{
    if v.len() > 0 {
        lemma_first(t, v);
        assert(is_space(v[0]));
        lemma_ends(t, e, v[0]);
        let g = given(e);
        let w = v.skip(1);
        assert forall|i: int| 0 <= i < w.len() implies is_space(#[trigger] w[i]) by {
            assert(w[i] == v[i + 1]);
        }
        lemma_spaces(g, w);
    }
}

/// A byte that begins a value goes to the value.
proof fn lemma_enters(s: Seq<FrameV>, shape: Shape, b: u8)
    requires
        s.len() > 0,
        next_shape(s.last()) == Some(shape),
        !is_space(b),
        b != CLOSE_BRACKET,
    ensures
        wants_value(entered(s)),
        entered(s).len() == s.len(),
        step(s, b, MAX_HANDOVERS as nat) == begin(entered(s), shape, b, MAX_HANDOVERS as nat),
        forall|m: Option<int>| #[trigger] finish(entered(s), m) == Some(given(entered(s))),
{
    lemma_between(s, b);
}

/// A choice begun at its first byte goes on as one.
proof fn lemma_choice_begins(e: Seq<FrameV>, options: Seq<Seq<u8>>, alive: Set<int>, i: int)
    requires
        e.len() < MAX_DEPTH,
        alive.contains(i),
        forall|j: int| #[trigger] alive.contains(j) ==> 0 <= j < options.len(),
        options[i].len() > 0,
    ensures
        ({
            let v = options[i];
            fed_all(choose_one(e, options, alive, v[0], MAX_HANDOVERS as nat), v.skip(1)) == Some(
                e.push(FrameV::Choice { options, alive: beginning_with(options, alive, v), at: v.len() as int }),
            )
        }),
{
    let v = options[i];
    let b = v[0];
    let s = e.push(FrameV::Choice { options, alive, at: 0 });
    lemma_choice_fed(e, options, alive, i, v.len());
    assert(v.take(v.len() as int) =~= v);
    lemma_first(s, v);
    // Read as the choice begins or right behind it, the first byte does the same.
    let narrowed = narrow(options, alive, 0, b);
    assert(narrowed.contains(i));
    let t = with_top(s, FrameV::Choice { options, alive: narrowed, at: 1 });
    assert(step(s, b, MAX_HANDOVERS as nat) == Some(t));
    assert(step(s, b, (MAX_HANDOVERS - 1) as nat) == Some(t));
    assert(choose_one(e, options, alive, b, MAX_HANDOVERS as nat) == Some(t));
}

/// One of a fixed set of values is read.
proof fn lemma_option(s: Seq<FrameV>, shape: Shape, options: Seq<Seq<u8>>, alive: Set<int>, i: int)
    requires
        0 < s.len() < MAX_DEPTH,
        next_shape(s.last()) == Some(shape),
        alive.contains(i),
        forall|j: int| #[trigger] alive.contains(j) ==> 0 <= j < options.len(),
        options[i].len() > 0,
        !is_space(options[i][0]),
        options[i][0] != CLOSE_BRACKET,
        clear_values(options),
        begin(entered(s), shape, options[i][0], MAX_HANDOVERS as nat) == choose_one(
            entered(s),
            options,
            alive,
            options[i][0],
            MAX_HANDOVERS as nat,
        ),
    ensures
        fed_all(Some(s), options[i]) matches Some(t) && has_read(t, entered(s)),
{
    let v = options[i];
    let e = entered(s);
    lemma_enters(s, shape, v[0]);
    lemma_first(s, v);
    lemma_choice_begins(e, options, alive, i);
    let left = beginning_with(options, alive, v);
    let t = e.push(FrameV::Choice { options, alive: left, at: v.len() as int });
    assert(t.drop_last() =~= e);
    assert(v.take(v.len() as int) =~= v);
    assert(left.contains(i));
    lemma_settled(options, left, v.len() as int, 0);
    assert forall|j: int| #[trigger] left.contains(j) implies 0 <= j < options.len() && (options[j].len() > v.len() ==>
        !ends_value(options[j][v.len() as int])) by {
        assert(options[j].take(v.len() as int) == options[i]);
    }
}

proof fn lemma_clear_words()
    ensures
        clear_values(words()),
        words().len() == 3,
        forall|i: int| 0 <= i < 3 ==> (#[trigger] words()[i]).len() > 0 && !is_space(words()[i][0]) && words()[i][0]
            != CLOSE_BRACKET,
{
    assert forall|i: int, j: int|
        #![trigger words()[i], words()[j]]
        0 <= i < 3 && 0 <= j < 3 && words()[j].len() > words()[i].len() && words()[j].take(words()[i].len() as int)
            == words()[i] implies !ends_value(words()[j][words()[i].len() as int]) by {
        assert(words()[j].take(words()[i].len() as int)[0] == words()[j][0]);
        assert(i == 0 || i == 1 || i == 2);
        assert(j == 0 || j == 1 || j == 2);
    }
}

/// A string, a number or a word is read.
proof fn lemma_scalar(s: Seq<FrameV>, shape: Shape, v: Seq<u8>)
    requires
        0 < s.len() < MAX_DEPTH,
        next_shape(s.last()) == Some(shape),
        ({
            ||| (shape is Any || shape is Str) && is_string(v)
            ||| shape is Any && is_number(v, false)
            ||| (shape matches Shape::Num { integer } && is_number(v, integer))
        }),
    ensures
        fed_all(Some(s), v) matches Some(t) && has_read(t, entered(s)),
{
    let e = entered(s);
    if (shape is Any || shape is Str) && is_string(v) {
        lemma_enters(s, shape, QUOTE);
        lemma_first(s, v);
        lemma_string(e, v);
    } else {
        let integer = match shape {
            Shape::Num { integer } => integer,
            _ => false,
        };
        lemma_number_run(v, integer);
        lemma_first_of_number(v, integer);
        let b = v[0];
        lemma_enters(s, shape, b);
        lemma_first(s, v);
        let f = e.push(FrameV::Num { state: Num::Lead, integer });
        lemma_number_fed(e, v, integer);
        lemma_first(f, v);
        let n = Num::Lead.after(b, integer)->0;
        let t = with_top(f, FrameV::Num { state: n, integer });
        assert(step(f, b, MAX_HANDOVERS as nat) == Some(t));
        assert(step(f, b, (MAX_HANDOVERS - 1) as nat) == Some(t));
        assert(begin(e, shape, b, MAX_HANDOVERS as nat) == crate::automaton::number(e, integer, b, MAX_HANDOVERS as nat));
        assert(crate::automaton::number(e, integer, b, MAX_HANDOVERS as nat) == Some(t));
        let u = e.push(FrameV::Num { state: number_run(v, integer)->0, integer });
        assert(u.drop_last() =~= e);
    }
}

/// A number begins with a sign or a digit.
proof fn lemma_first_of_number(v: Seq<u8>, integer: bool)
    requires
        number_run(v, integer) matches Some(n) && n.ends(),
    ensures
        v.len() > 0,
        v[0] == MINUS || is_digit(v[0]),
        Num::Lead.after(v[0], integer) is Some,
{
    lemma_prefix_runs(v, integer, 1);
    assert(v.take(1).drop_last() =~= Seq::<u8>::empty());
    assert(number_run(v.take(1).drop_last(), integer) == Some(Num::Lead));
}

proof fn lemma_prefix_runs(v: Seq<u8>, integer: bool, k: int)
    requires
        number_run(v, integer) is Some,
        0 <= k <= v.len(),
    ensures
        number_run(v.take(k), integer) is Some,
    decreases v.len(),
{
    if k == v.len() {
        assert(v.take(k) =~= v);
    } else {
        lemma_prefix_runs(v.drop_last(), integer, k);
        assert(v.drop_last().take(k) =~= v.take(k));
    }
}

// ----------------------------------------------------------------------- keys

/// Whether the keys of an object can be told apart.
spec fn clear_props(props: Seq<Property>) -> bool {
    &&& clear_keys(key_options(props))
    &&& forall|i: int| 0 <= i < props.len() ==> (#[trigger] props[i]).key.len() > 0 && props[i].key[0] == QUOTE
}

/// The stack with an object on top that is at a given point.
spec fn at_phase(s: Seq<FrameV>, props: Seq<Property>, next: int, key: int, phase: ObjPhase) -> Seq<FrameV> {
    with_top(s, FrameV::Obj { props, next, key, phase })
}

/// Whether a stack has read a key; one of a fixed set is closed by what follows it.
spec fn has_key(t: Seq<FrameV>, s: Seq<FrameV>, props: Seq<Property>, next: int, key: int, k: int) -> bool {
    ||| t == at_phase(s, props, next, k, ObjPhase::AfterKey)
    ||| t.len() == s.len() + 1 && t.drop_last() == at_phase(s, props, next, key, ObjPhase::InKey) && match t.last() {
        FrameV::Choice { options, alive, at } => {
            &&& settled_from(options, alive, at, 0) == Some(k)
            &&& forall|j: int| #[trigger] alive.contains(j) ==> 0 <= j < options.len() && (options[j].len() > at ==>
                !ends_key(options[j][at]))
        },
        _ => false,
    }
}

/// A byte that can stand behind a key closes it.
proof fn lemma_key_ends(t: Seq<FrameV>, s: Seq<FrameV>, props: Seq<Property>, next: int, key: int, k: int, b: u8)
    requires
        s.len() > 0,
        has_key(t, s, props, next, key, k),
        ends_key(b),
    ensures
        step(t, b, MAX_HANDOVERS as nat) == Some(
            if is_space(b) {
                at_phase(s, props, next, k, ObjPhase::AfterKey)
            } else {
                at_phase(s, props, next, k, ObjPhase::BeforeValue)
            },
        ),
{
    let a = at_phase(s, props, next, k, ObjPhase::AfterKey);
    let less = (MAX_HANDOVERS - 1) as nat;
    let more = MAX_HANDOVERS as nat;
    assert(with_top(a, FrameV::Obj { props, next, key: k, phase: ObjPhase::BeforeValue }) =~= at_phase(
        s,
        props,
        next,
        k,
        ObjPhase::BeforeValue,
    ));
    if !is_space(b) {
        assert(step(a, b, less) == crate::automaton::structure(a, b, less));
        assert(step(a, b, more) == crate::automaton::structure(a, b, more));
    }
    if t != a {
        let w = at_phase(s, props, next, key, ObjPhase::InKey);
        match t.last() {
            FrameV::Choice { options, alive, at } => {
                let narrowed = narrow(options, alive, at, b);
                assert forall|j: int| !narrowed.contains(j) by {
                    if narrowed.contains(j) {
                        assert(alive.contains(j));
                    }
                }
                assert(with_top(w, FrameV::Obj { props, next, key: k, phase: ObjPhase::AfterKey }) =~= a);
                assert(finish(w, Some(k)) == Some(a));
                assert(step(t, b, more) == step(a, b, less));
            },
            _ => {},
        }
    }
}

/// A key is read.
#[verifier::rlimit(40)]
#[verifier::spinoff_prover]
proof fn lemma_key(s: Seq<FrameV>, props: Seq<Property>, next: int, key: int, phase: ObjPhase, k: int, v: Seq<u8>)
    requires
        0 < s.len() < MAX_DEPTH,
        s.last() == (FrameV::Obj { props, next, key, phase }),
        phase is KeyOrEnd || phase is Key,
        next >= 0,
        clear_props(props),
        may_come(props, next, k),
        is_key(props, k, v),
    ensures
        fed_all(Some(s), v) matches Some(t) && has_key(t, s, props, next, key, k),
{
    let w = at_phase(s, props, next, key, ObjPhase::InKey);
    let a = at_phase(s, props, next, k, ObjPhase::AfterKey);
    lemma_between(s, QUOTE);
    assert(w.len() == s.len());
    if props.len() == 0 {
        lemma_first(s, v);
        assert(step(s, QUOTE, MAX_HANDOVERS as nat) == Some(w.push(FrameV::Str { escape: false, hex: 0 })));
        assert(with_top(w, FrameV::Obj { props, next, key: 0, phase: ObjPhase::AfterKey }) =~= a);
        assert(finish(w, None) == Some(a));
        lemma_string(w, v);
    } else {
        let options = key_options(props);
        let alive = keys_from(props, next);
        assert(options[k] == props[k].key);
        assert(options[k] == v);
        lemma_first(s, v);
        lemma_choice_begins(w, options, alive, k);
        assert(step(s, QUOTE, MAX_HANDOVERS as nat) == choose_one(w, options, alive, QUOTE, MAX_HANDOVERS as nat));
        let left = beginning_with(options, alive, v);
        let t = w.push(FrameV::Choice { options, alive: left, at: v.len() as int });
        assert(t.drop_last() =~= w);
        assert(v.take(v.len() as int) =~= v);
        assert(left.contains(k));
        lemma_settled(options, left, v.len() as int, 0);
        let i = settled_from(options, left, v.len() as int, 0)->0;
        assert(options[i].take(v.len() as int) =~= options[i]);
        assert(options[i] == options[k]);
        assert(i == k);
        assert forall|j: int| #[trigger] left.contains(j) implies 0 <= j < options.len() && (options[j].len() > v.len() ==>
            !ends_key(options[j][v.len() as int])) by {
            assert(options[j].take(v.len() as int) == options[k]);
        }
    }
}

/// A key, the whitespace behind it and a colon are read.
proof fn lemma_key_and_colon(s: Seq<FrameV>, props: Seq<Property>, next: int, key: int, phase: ObjPhase, k: int, v: Seq<u8>, ws: Seq<
    u8,
>)
    requires
        0 < s.len() < MAX_DEPTH,
        s.last() == (FrameV::Obj { props, next, key, phase }),
        phase is KeyOrEnd || phase is Key,
        next >= 0,
        clear_props(props),
        may_come(props, next, k),
        is_key(props, k, v),
        all_space(ws),
    ensures
        fed_all(Some(s), v + ws + seq![COLON]) == Some(at_phase(s, props, next, k, ObjPhase::BeforeValue)),
{
    let a = at_phase(s, props, next, k, ObjPhase::AfterKey);
    lemma_key(s, props, next, key, phase, k, v);
    let t = fed_all(Some(s), v)->0;
    law_split(Some(s), v + ws, seq![COLON]);
    law_split(Some(s), v, ws);
    if ws.len() > 0 {
        lemma_first(t, ws);
        assert(is_space(ws[0]));
        lemma_key_ends(t, s, props, next, key, k, ws[0]);
        let rest = ws.skip(1);
        assert forall|i: int| 0 <= i < rest.len() implies is_space(#[trigger] rest[i]) by {
            assert(rest[i] == ws[i + 1]);
        }
        lemma_spaces(a, rest);
        lemma_one(a, COLON);
        lemma_key_ends(a, s, props, next, key, k, COLON);
    } else {
        assert(fed_all(Some(t), ws) == Some(t));
        lemma_one(t, COLON);
        lemma_key_ends(t, s, props, next, key, k, COLON);
    }
}

// ------------------------------------------------------------------ documents

/// A value of the shape that may begin is read.
#[verifier::rlimit(40)]
#[verifier::spinoff_prover]
proof fn lemma_value(s: Seq<FrameV>, shape: Shape, v: Seq<u8>)
    requires
        0 < s.len() <= MAX_DEPTH,
        next_shape(s.last()) == Some(shape),
        is_value(shape, v, MAX_DEPTH - s.len()),
        is_clear(shape, MAX_DEPTH - s.len()),
    ensures
        fed_all(Some(s), v) matches Some(t) && has_read(t, entered(s)),
    decreases v.len(), 1nat,
{
    let e = entered(s);
    let room = MAX_DEPTH - s.len();
    assert(room >= 1);
    match shape {
        Shape::Any => {
            if is_string(v) || is_number(v, false) {
                lemma_scalar(s, shape, v);
            } else if words().contains(v) {
                lemma_clear_words();
                let i = choose|i: int| 0 <= i < words().len() && words()[i] == v;
                assert(i == 0 || i == 1 || i == 2);
                lemma_option(s, shape, words(), Set::new(|i: int| 0 <= i < 3), i);
            } else if is_array(Shape::Any, 0, u32::MAX as int, v, room - 1) {
                lemma_array(s, shape, Shape::Any, 0, u32::MAX as int, v);
            } else {
                assert(clear_props(Seq::empty()));
                lemma_object(s, shape, Seq::empty(), v);
            }
        },
        Shape::Str => lemma_scalar(s, shape, v),
        Shape::Num { integer } => lemma_scalar(s, shape, v),
        Shape::Bool => {
            lemma_clear_words();
            let i: int = if v == words()[0] {
                0
            } else {
                1
            };
            lemma_option(s, shape, words(), Set::new(|i: int| 0 <= i < 2), i);
        },
        Shape::Null => {
            lemma_clear_words();
            lemma_option(s, shape, words(), Set::new(|i: int| i == 2), 2);
        },
        Shape::Enum(options) => {
            let i = choose|i: int| 0 <= i < options.len() && options[i] == v;
            lemma_option(s, shape, options, Set::new(|i: int| 0 <= i < options.len()), i);
        },
        Shape::Object(props) => lemma_object(s, shape, props, v),
        Shape::Array { items, min, max } => lemma_array(s, shape, *items, min as int, max as int, v),
    }
}

/// A value with whitespace around it is read.
proof fn lemma_padded(s: Seq<FrameV>, shape: Shape, p: Seq<u8>)
    requires
        0 < s.len() <= MAX_DEPTH,
        next_shape(s.last()) == Some(shape),
        is_padded(shape, p, MAX_DEPTH - s.len()),
        is_clear(shape, MAX_DEPTH - s.len()),
    ensures
        fed_all(Some(s), p) matches Some(t) && has_read(t, entered(s)),
    decreases p.len(), 2nat,
{
    let (i, j) = choose|i: int, j: int|
        0 <= i <= j <= p.len() && all_space(p.take(i)) && all_space(p.skip(j)) && is_value(
            shape,
            #[trigger] p.subrange(i, j),
            MAX_DEPTH - s.len(),
        );
    let v = p.subrange(i, j);
    lemma_parts(s, p, i);
    lemma_spaces(s, p.take(i));
    let w = p.skip(i);
    lemma_parts(s, w, j - i);
    assert(w.take(j - i) =~= v);
    assert(w.skip(j - i) =~= p.skip(j));
    lemma_value(s, shape, v);
    let t = fed_all(Some(s), v)->0;
    assert(wants_value(entered(s)));
    lemma_trailing(t, entered(s), p.skip(j));
}

/// An array is read.
proof fn lemma_array(s: Seq<FrameV>, shape: Shape, items: Shape, min: int, max: int, v: Seq<u8>)
    requires
        0 < s.len() < MAX_DEPTH,
        next_shape(s.last()) == Some(shape),
        shape == Shape::Any && items == Shape::Any && min == 0 && max == u32::MAX || (shape matches Shape::Array {
            items: i,
            min: a,
            max: b,
        } && *i == items && a == min && b == max),
        is_array(items, min, max, v, MAX_DEPTH - s.len() - 1),
        is_clear(items, MAX_DEPTH - s.len() - 1),
    ensures
        fed_all(Some(s), v) matches Some(t) && has_read(t, entered(s)),
    decreases v.len(), 0nat,
{
    let e = entered(s);
    lemma_enters(s, shape, OPEN_BRACKET);
    let a = e.push(FrameV::Arr { items, count: 0, min, max, phase: ArrPhase::ValueOrEnd });
    lemma_first(s, v);
    assert(step(s, OPEN_BRACKET, MAX_HANDOVERS as nat) == Some(a));
    let rest = v.skip(1);
    let inner = v.subrange(1, v.len() - 1);
    lemma_parts(a, rest, rest.len() - 1);
    assert(rest.take(rest.len() - 1) =~= inner);
    assert(rest.skip(rest.len() - 1) =~= seq![CLOSE_BRACKET]);
    if all_space(inner) && min <= 0 {
        lemma_spaces(a, inner);
        lemma_one(a, CLOSE_BRACKET);
        lemma_between(a, CLOSE_BRACKET);
        assert(a.drop_last() =~= e);
    } else {
        let n = choose|n: nat| #[trigger] in_bounds(n, min, max) && is_list(items, n, inner, MAX_DEPTH - s.len() - 1);
        lemma_list(e, items, min, max, n, inner);
        let t = fed_all(Some(a), inner)->0;
        let w = e.push(FrameV::Arr { items, count: n - 1, min, max, phase: ArrPhase::InValue });
        lemma_one(t, CLOSE_BRACKET);
        lemma_ends(t, w, CLOSE_BRACKET);
        let g = given(w);
        lemma_between(g, CLOSE_BRACKET);
        assert(g =~= e.push(FrameV::Arr { items, count: n as int, min, max, phase: ArrPhase::CommaOrEnd }));
        assert(g.drop_last() =~= e);
    }
}

/// The values of an array are read, the last of them perhaps not closed yet.
proof fn lemma_list(e: Seq<FrameV>, items: Shape, min: int, max: int, n: nat, l: Seq<u8>)
    requires
        0 < e.len() < MAX_DEPTH,
        1 <= n <= max,
        is_list(items, n, l, MAX_DEPTH - e.len() - 1),
        is_clear(items, MAX_DEPTH - e.len() - 1),
    ensures
        ({
            let a = e.push(FrameV::Arr { items, count: 0, min, max, phase: ArrPhase::ValueOrEnd });
            let w = e.push(FrameV::Arr { items, count: n - 1, min, max, phase: ArrPhase::InValue });
            fed_all(Some(a), l) matches Some(t) && has_read(t, w)
        }),
    decreases l.len(), 3nat,
{
    let a = e.push(FrameV::Arr { items, count: 0, min, max, phase: ArrPhase::ValueOrEnd });
    let w = e.push(FrameV::Arr { items, count: n - 1, min, max, phase: ArrPhase::InValue });
    if n <= 1 {
        lemma_padded(a, items, l);
        assert(entered(a) =~= w);
    } else {
        let room = MAX_DEPTH - e.len() - 1;
        let k = choose|k: int|
            0 <= k < l.len() && l[k] == COMMA && is_list(items, (n - 1) as nat, #[trigger] l.take(k), room) && is_padded(
                items,
                l.skip(k + 1),
                room,
            );
        lemma_list(e, items, min, max, (n - 1) as nat, l.take(k));
        let x = e.push(FrameV::Arr { items, count: n - 2, min, max, phase: ArrPhase::InValue });
        let t = fed_all(Some(a), l.take(k))->0;
        lemma_parts(a, l, k);
        let rest = l.skip(k);
        lemma_first(t, rest);
        assert(rest.skip(1) =~= l.skip(k + 1));
        lemma_ends(t, x, COMMA);
        let g = given(x);
        lemma_between(g, COMMA);
        let y = e.push(FrameV::Arr { items, count: n - 1, min, max, phase: ArrPhase::Value });
        assert(with_top(g, y.last()) =~= y);
        assert(step(t, COMMA, MAX_HANDOVERS as nat) == Some(y));
        lemma_padded(y, items, l.skip(k + 1));
        assert(entered(y) =~= w);
    }
}

/// An object is read.
proof fn lemma_object(s: Seq<FrameV>, shape: Shape, props: Seq<Property>, v: Seq<u8>)
    requires
        0 < s.len() < MAX_DEPTH,
        next_shape(s.last()) == Some(shape),
        shape == Shape::Any && props == Seq::<Property>::empty() || shape == Shape::Object(props),
        is_object(props, v, MAX_DEPTH - s.len() - 1),
        clear_props(props),
        forall|i: int| 0 <= i < props.len() ==> is_clear((#[trigger] props[i]).shape, MAX_DEPTH - s.len() - 1),
    ensures
        fed_all(Some(s), v) matches Some(t) && has_read(t, entered(s)),
    decreases v.len(), 0nat,
{
    let e = entered(s);
    let room = MAX_DEPTH - s.len() - 1;
    lemma_enters(s, shape, OPEN_BRACE);
    let a = e.push(FrameV::Obj { props, next: 0, key: 0, phase: ObjPhase::KeyOrEnd });
    lemma_first(s, v);
    assert(step(s, OPEN_BRACE, MAX_HANDOVERS as nat) == Some(a));
    let rest = v.skip(1);
    let inner = v.subrange(1, v.len() - 1);
    lemma_parts(a, rest, rest.len() - 1);
    assert(rest.take(rest.len() - 1) =~= inner);
    assert(rest.skip(rest.len() - 1) =~= seq![CLOSE_BRACE]);
    if all_space(inner) && may_end(props, 0) {
        lemma_spaces(a, inner);
        lemma_one(a, CLOSE_BRACE);
        lemma_between(a, CLOSE_BRACE);
        assert(a.drop_last() =~= e);
    } else {
        let k = choose|k: int| #[trigger] may_end_behind(props, k) && is_members(props, k, inner, room);
        let next = lemma_members(e, props, k, inner);
        let t = fed_all(Some(a), inner)->0;
        let w = e.push(FrameV::Obj { props, next, key: k, phase: ObjPhase::InValue });
        lemma_one(t, CLOSE_BRACE);
        lemma_ends(t, w, CLOSE_BRACE);
        let g = given(w);
        lemma_between(g, CLOSE_BRACE);
        assert(g =~= e.push(FrameV::Obj { props, next: k + 1, key: k, phase: ObjPhase::CommaOrEnd }));
        assert(g.drop_last() =~= e);
    }
}

/// The members of an object are read, the value of the last perhaps not closed yet.
#[verifier::rlimit(40)]
#[verifier::spinoff_prover]
proof fn lemma_members(e: Seq<FrameV>, props: Seq<Property>, k: int, m: Seq<u8>) -> (next: int)
    requires
        0 < e.len() < MAX_DEPTH,
        is_members(props, k, m, MAX_DEPTH - e.len() - 1),
        clear_props(props),
        forall|i: int| 0 <= i < props.len() ==> is_clear((#[trigger] props[i]).shape, MAX_DEPTH - e.len() - 1),
    ensures
        k >= 0,
        ({
            let a = e.push(FrameV::Obj { props, next: 0, key: 0, phase: ObjPhase::KeyOrEnd });
            let w = e.push(FrameV::Obj { props, next, key: k, phase: ObjPhase::InValue });
            fed_all(Some(a), m) matches Some(t) && has_read(t, w)
        }),
    decreases m.len(), 4nat,
{
    let room = MAX_DEPTH - e.len() - 1;
    let a = e.push(FrameV::Obj { props, next: 0, key: 0, phase: ObjPhase::KeyOrEnd });
    if opens(props, k) && is_member(props, k, m, room) {
        lemma_member(a, props, 0, 0, ObjPhase::KeyOrEnd, k, m);
        let w = e.push(FrameV::Obj { props, next: 0, key: k, phase: ObjPhase::InValue });
        assert(at_phase(a, props, 0, k, ObjPhase::InValue) =~= w);
        0
    } else {
        let (c, j) = choose|c: int, j: int|
            0 <= c < m.len() && m[c] == COMMA && #[trigger] follows(props, j, k) && is_members(
                props,
                j,
                #[trigger] m.take(c),
                room,
            ) && is_member(props, k, m.skip(c + 1), room);
        let before = lemma_members(e, props, j, m.take(c));
        let x = e.push(FrameV::Obj { props, next: before, key: j, phase: ObjPhase::InValue });
        let t = fed_all(Some(a), m.take(c))->0;
        lemma_parts(a, m, c);
        let rest = m.skip(c);
        lemma_first(t, rest);
        assert(rest.skip(1) =~= m.skip(c + 1));
        lemma_ends(t, x, COMMA);
        let g = given(x);
        lemma_between(g, COMMA);
        let y = e.push(FrameV::Obj { props, next: j + 1, key: j, phase: ObjPhase::Key });
        assert(g =~= e.push(FrameV::Obj { props, next: j + 1, key: j, phase: ObjPhase::CommaOrEnd }));
        assert(with_top(g, y.last()) =~= y);
        if props.len() > 0 {
            assert(keys_from(props, j + 1).contains(k));
            assert(some_alive(keys_from(props, j + 1)));
        }
        assert(step(t, COMMA, MAX_HANDOVERS as nat) == Some(y));
        lemma_member(y, props, j + 1, j, ObjPhase::Key, k, m.skip(c + 1));
        let w = e.push(FrameV::Obj { props, next: j + 1, key: k, phase: ObjPhase::InValue });
        assert(at_phase(y, props, j + 1, k, ObjPhase::InValue) =~= w);
        j + 1
    }
}

/// A member is read, its value perhaps not closed yet.
proof fn lemma_member(s: Seq<FrameV>, props: Seq<Property>, next: int, key: int, phase: ObjPhase, k: int, m: Seq<u8>)
    requires
        0 < s.len() <= MAX_DEPTH,
        s.last() == (FrameV::Obj { props, next, key, phase }),
        phase is KeyOrEnd || phase is Key,
        next >= 0,
        clear_props(props),
        may_come(props, next, k),
        is_member(props, k, m, MAX_DEPTH - s.len()),
        forall|i: int| 0 <= i < props.len() ==> is_clear((#[trigger] props[i]).shape, MAX_DEPTH - s.len()),
    ensures
        fed_all(Some(s), m) matches Some(t) && has_read(t, at_phase(s, props, next, k, ObjPhase::InValue)),
    decreases m.len(), 3nat,
{
    let room = MAX_DEPTH - s.len();
    let (a, b, c) = choose|a: int, b: int, c: int|
        0 <= a <= b <= c < m.len() && all_space(m.take(a)) && is_key(props, k, #[trigger] m.subrange(a, b)) && all_space(
            #[trigger] m.subrange(b, c),
        ) && m[c] == COLON && is_padded(shape_at(props, k), m.skip(c + 1), room);
    let v = m.subrange(a, b);
    let ws = m.subrange(b, c);
    lemma_room(shape_at(props, k), m.skip(c + 1), room);
    lemma_parts(s, m, a);
    lemma_spaces(s, m.take(a));
    let rest = m.skip(a);
    lemma_parts(s, rest, c + 1 - a);
    assert(rest.take(c + 1 - a) =~= v + ws + seq![COLON]);
    assert(rest.skip(c + 1 - a) =~= m.skip(c + 1));
    lemma_key_and_colon(s, props, next, key, phase, k, v, ws);
    let u = at_phase(s, props, next, k, ObjPhase::BeforeValue);
    assert(wanted(props, k) == shape_at(props, k));
    lemma_padded(u, shape_at(props, k), m.skip(c + 1));
    assert(entered(u) =~= at_phase(s, props, next, k, ObjPhase::InValue));
}

/// A value takes a level.
proof fn lemma_room(shape: Shape, p: Seq<u8>, room: int)
    requires
        is_padded(shape, p, room),
    ensures
        room >= 1,
{
    let (i, j) = choose|i: int, j: int|
        0 <= i <= j <= p.len() && all_space(p.take(i)) && all_space(p.skip(j)) && is_value(
            shape,
            #[trigger] p.subrange(i, j),
            room,
        );
    assert(is_value(shape, p.subrange(i, j), room));
}

/// Every document of the shape is let through: bytes that are a value of the shape, with
/// nothing but whitespace around it and nested no deeper than the automaton can follow, are
/// read to a complete document.
pub proof fn law_documents_are_accepted(shape: Shape, bytes: Seq<u8>)
    requires
        is_clear(shape, MAX_DEPTH - 1),
        is_padded(shape, bytes, MAX_DEPTH - 1),
    ensures
        fed_all(started(shape), bytes) matches Some(s) && is_complete(s),
{
    let s = started(shape)->0;
    lemma_padded(s, shape, bytes);
    let t = fed_all(Some(s), bytes)->0;
    let e = entered(s);
    let g = given(e);
    assert(settle(g) == Some(g));
    if t != g {
        assert(forall|m: Option<int>| #[trigger] finish(e, m) == Some(g));
        match t.last() {
            FrameV::Num { .. } => {
                assert(settle(t) == settle(g));
            },
            FrameV::Choice { options, alive, at } => {
                let k = settled_from(options, alive, at, 0)->0;
                assert(finish(t.drop_last(), Some(k)) == Some(g));
                assert(settle(t) == settle(g));
            },
            _ => {},
        }
    }
}

/// A valid prefix stays viable: what can be continued to a document of the shape is let
/// through.
pub proof fn law_prefixes_stay_viable(shape: Shape, bytes: Seq<u8>, more: Seq<u8>)
    requires
        is_clear(shape, MAX_DEPTH - 1),
        is_padded(shape, bytes + more, MAX_DEPTH - 1),
    ensures
        fed_all(started(shape), bytes) is Some,
{
    law_documents_are_accepted(shape, bytes + more);
    law_split(started(shape), bytes, more);
    law_failure_is_final(more);
}

/// The constraint that any JSON is allowed allows exactly JSON: bytes are read to a complete
/// document where they are one that nests no deeper than the limit, and only there.
pub proof fn law_json_is_exactly_json(bytes: Seq<u8>)
    ensures
        (fed_all(started(Shape::Any), bytes) matches Some(s) && is_complete(s)) <==> is_padded(
            Shape::Any,
            bytes,
            MAX_DEPTH - 1,
        ),
{
    if is_padded(Shape::Any, bytes, MAX_DEPTH - 1) {
        law_documents_are_accepted(Shape::Any, bytes);
    }
    if fed_all(started(Shape::Any), bytes) matches Some(s) && is_complete(s) {
        law_documents_conform(Shape::Any, bytes);
    }
}

} // verus!
