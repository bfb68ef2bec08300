//! What constrained decoding promises: a document that the automaton takes to its end is
//! JSON of the shape that was asked for.
//!
//! Documents are described by what they are made of, not by how they are read: a value
//! between whitespace, an array of values between commas, an object of members in the
//! order of its properties.

use vstd::prelude::*;
use crate::automaton::{
    begin, choose_one, fed_all, finish, is_complete, is_digit, is_hex, is_space, key_options, keys_from, lemma_settled,
    may_end, narrow, settle, settled_from, some_alive, started, step, string_step, structure, with_top, words, ArrPhase,
    FrameV, Num, ObjPhase, Property, Shape, BACKSLASH, CLOSE_BRACE, CLOSE_BRACKET, COLON, COMMA, DOT, LOWER_E,
    MAX_DEPTH, MAX_HANDOVERS, MINUS, OPEN_BRACE, OPEN_BRACKET, PLUS, QUOTE, UPPER_E, ZERO,
};

verus! {

/// Nothing but whitespace.
pub open spec fn all_space(s: Seq<u8>) -> bool {
    forall|i: int| 0 <= i < s.len() ==> is_space(#[trigger] s[i])
}

/// Nothing but digits.
pub open spec fn all_digits(s: Seq<u8>) -> bool {
    forall|i: int| 0 <= i < s.len() ==> is_digit(#[trigger] s[i])
}

/// A character that may stand behind a backslash alone.
pub open spec fn is_escape(b: u8) -> bool {
    b == QUOTE || b == BACKSLASH || b == 47 || b == 98 || b == 102 || b == 110 || b == 114 || b == 116
}

/// The inside of a string: plain bytes, short escapes, and `\u` with four digits.
pub open spec fn is_text(s: Seq<u8>) -> bool
    decreases s.len(),
{
    if s.len() == 0 {
        true
    } else if s[0] == BACKSLASH {
        if s.len() >= 6 && s[1] == 117 {
            is_hex(s[2]) && is_hex(s[3]) && is_hex(s[4]) && is_hex(s[5]) && is_text(s.skip(6))
        } else {
            s.len() >= 2 && is_escape(s[1]) && is_text(s.skip(2))
        }
    } else {
        s[0] >= 32 && s[0] != QUOTE && is_text(s.skip(1))
    }
}

/// A string: text between quotes.
pub open spec fn is_string(s: Seq<u8>) -> bool {
    s.len() >= 2 && s[0] == QUOTE && s.last() == QUOTE && is_text(s.subrange(1, s.len() - 1))
}

/// The digits of a whole number, behind its sign.
pub open spec fn magnitude(s: Seq<u8>) -> Seq<u8> {
    if s.len() > 0 && s[0] == MINUS {
        s.skip(1)
    } else {
        s
    }
}

/// A whole number: digits behind an optional sign, with no leading zero.
pub open spec fn is_whole(s: Seq<u8>) -> bool {
    let d = magnitude(s);
    d.len() > 0 && all_digits(d) && (d[0] != ZERO || d.len() == 1)
}

/// A whole number with a fraction behind the point at `k`.
pub open spec fn is_fraction(s: Seq<u8>, k: int) -> bool {
    0 < k < s.len() - 1 && s[k] == DOT && is_whole(s.take(k)) && all_digits(s.skip(k + 1))
}

/// A number without an exponent.
pub open spec fn is_mantissa(s: Seq<u8>) -> bool {
    is_whole(s) || exists|k: int| is_fraction(s, k)
}

/// The digits of an exponent, behind its sign.
pub open spec fn power(s: Seq<u8>) -> Seq<u8> {
    if s.len() > 0 && (s[0] == PLUS || s[0] == MINUS) {
        s.skip(1)
    } else {
        s
    }
}

/// A number with an exponent behind the letter at `k`.
pub open spec fn is_scientific(s: Seq<u8>, k: int) -> bool {
    &&& 0 < k < s.len()
    &&& s[k] == LOWER_E || s[k] == UPPER_E
    &&& is_mantissa(s.take(k))
    &&& power(s.skip(k + 1)).len() > 0
    &&& all_digits(power(s.skip(k + 1)))
}

/// A number, or only a whole one.
pub open spec fn is_number(s: Seq<u8>, integer: bool) -> bool {
    is_whole(s) || (!integer && (is_mantissa(s) || exists|k: int| is_scientific(s, k)))
}

/// The shape of a property; where none is declared, any value.
pub open spec fn shape_at(props: Seq<Property>, k: int) -> Shape {
    if 0 <= k < props.len() {
        props[k].shape
    } else {
        Shape::Any
    }
}

/// The name of a property; where none is declared, any string.
pub open spec fn is_key(props: Seq<Property>, k: int, s: Seq<u8>) -> bool {
    if props.len() == 0 {
        is_string(s)
    } else {
        0 <= k < props.len() && s == props[k].key
    }
}

/// Whether a property can come first: those before it can be left out.
pub open spec fn opens(props: Seq<Property>, k: int) -> bool {
    if props.len() == 0 {
        k == 0
    } else {
        keys_from(props, 0).contains(k)
    }
}

/// Whether a property can come right behind another: it stands later, and those between
/// can be left out.
pub open spec fn follows(props: Seq<Property>, j: int, k: int) -> bool {
    if props.len() == 0 {
        j == 0 && k == 0
    } else {
        0 <= j && keys_from(props, j + 1).contains(k)
    }
}

/// A value of the given shape that takes no more than `room` levels to write: one for
/// itself, and inside an array or an object those of what is in it.
pub open spec fn is_value(shape: Shape, s: Seq<u8>, room: int) -> bool
    decreases s.len(), 2nat,
{
    room >= 1 && match shape {
        Shape::Any => {
            ||| is_string(s)
            ||| is_number(s, false)
            ||| words().contains(s)
            ||| is_array(Shape::Any, 0, u32::MAX as int, s, room - 1)
            ||| is_object(Seq::empty(), s, room - 1)
        },
        Shape::Str => is_string(s),
        Shape::Num { integer } => is_number(s, integer),
        Shape::Bool => s == words()[0] || s == words()[1],
        Shape::Null => s == words()[2],
        Shape::Enum(options) => options.contains(s),
        Shape::Object(props) => is_object(props, s, room - 1),
        Shape::Array { items, min, max } => is_array(*items, min as int, max as int, s, room - 1),
    }
}

/// A value with whitespace around it.
pub open spec fn is_padded(shape: Shape, s: Seq<u8>, room: int) -> bool
    decreases s.len(), 3nat,
{
    exists|i: int, j: int|
        0 <= i <= j <= s.len() && all_space(s.take(i)) && all_space(s.skip(j)) && is_value(
            shape,
            #[trigger] s.subrange(i, j),
            room,
        )
}

/// So many values with commas between them.
pub open spec fn is_list(items: Shape, n: nat, s: Seq<u8>, room: int) -> bool
    decreases s.len(), 4nat,
{
    if n <= 1 {
        n == 1 && is_padded(items, s, room)
    } else {
        exists|k: int|
            0 <= k < s.len() && s[k] == COMMA && is_list(items, (n - 1) as nat, #[trigger] s.take(k), room) && is_padded(
                items,
                s.skip(k + 1),
                room,
            )
    }
}

/// A number of values that is allowed.
pub open spec fn in_bounds(n: nat, min: int, max: int) -> bool {
    1 <= n && min <= n <= max
}

/// An array of values, no fewer and no more than allowed.
pub open spec fn is_array(items: Shape, min: int, max: int, s: Seq<u8>, room: int) -> bool
    decreases s.len(), 1nat,
{
    s.len() >= 2 && s[0] == OPEN_BRACKET && s.last() == CLOSE_BRACKET && {
        let inner = s.subrange(1, s.len() - 1);
        ||| all_space(inner) && min <= 0
        ||| exists|n: nat| #[trigger] in_bounds(n, min, max) && is_list(items, n, inner, room)
    }
}

/// A property with its value.
pub open spec fn is_member(props: Seq<Property>, k: int, s: Seq<u8>, room: int) -> bool
    decreases s.len(), 3nat,
{
    exists|a: int, b: int, c: int|
        0 <= a <= b <= c < s.len() && all_space(s.take(a)) && is_key(props, k, #[trigger] s.subrange(a, b)) && all_space(
            #[trigger] s.subrange(b, c),
        ) && s[c] == COLON && is_padded(shape_at(props, k), s.skip(c + 1), room)
}

/// Members with commas between them, in the order of their properties, the last of which
/// is `k`.
pub open spec fn is_members(props: Seq<Property>, k: int, s: Seq<u8>, room: int) -> bool
    decreases s.len(), 4nat,
{
    ||| opens(props, k) && is_member(props, k, s, room)
    ||| exists|c: int, j: int|
        0 <= c < s.len() && s[c] == COMMA && #[trigger] follows(props, j, k) && is_members(
            props,
            j,
            #[trigger] s.take(c),
            room,
        ) && is_member(props, k, s.skip(c + 1), room)
}

/// Whether an object may close behind a property: those after it can be left out.
pub open spec fn may_end_behind(props: Seq<Property>, k: int) -> bool {
    may_end(props, k + 1)
}

/// An object that holds every required property.
pub open spec fn is_object(props: Seq<Property>, s: Seq<u8>, room: int) -> bool
    decreases s.len(), 1nat,
{
    s.len() >= 2 && s[0] == OPEN_BRACE && s.last() == CLOSE_BRACE && {
        let inner = s.subrange(1, s.len() - 1);
        ||| all_space(inner) && may_end(props, 0)
        ||| exists|k: int| #[trigger] may_end_behind(props, k) && is_members(props, k, inner, room)
    }
}


// ------------------------------------------------------------------- strings

pub(crate) proof fn lemma_text_joins(a: Seq<u8>, b: Seq<u8>)
    requires
        is_text(a),
        is_text(b),
    ensures
        is_text(a + b),
    decreases a.len(),
{
    let s = a + b;
    if a.len() == 0 {
        assert(s =~= b);
    } else if a[0] == BACKSLASH {
        if a.len() >= 6 && a[1] == 117 {
            lemma_text_joins(a.skip(6), b);
            assert(s.skip(6) =~= a.skip(6) + b);
        } else {
            lemma_text_joins(a.skip(2), b);
            assert(s.skip(2) =~= a.skip(2) + b);
        }
    } else {
        lemma_text_joins(a.skip(1), b);
        assert(s.skip(1) =~= a.skip(1) + b);
    }
}

/// What has been read of an escape.
spec fn is_tail(tail: Seq<u8>, escape: bool, hex: int) -> bool {
    if hex > 0 {
        &&& hex <= 4
        &&& tail.len() == 6 - hex
        &&& tail[0] == BACKSLASH && tail[1] == 117
        &&& forall|i: int| 2 <= i < tail.len() ==> is_hex(#[trigger] tail[i])
    } else if escape {
        tail == seq![BACKSLASH]
    } else {
        tail.len() == 0
    }
}

/// What has been read of a string: a quote, `n` bytes of text, and part of an escape.
spec fn string_so_far(s: Seq<u8>, escape: bool, hex: int, n: int) -> bool {
    &&& 0 <= n < s.len()
    &&& s[0] == QUOTE
    &&& is_text(s.subrange(1, n + 1))
    &&& is_tail(s.skip(n + 1), escape, hex)
}

pub(crate) proof fn lemma_unescaped(b: u8)
    requires
        b >= 32,
        b != QUOTE,
        b != BACKSLASH,
    ensures
        is_text(seq![b]),
{
    assert(is_text(seq![b].skip(1)));
}

proof fn lemma_escaped(b: u8)
    requires
        is_escape(b),
    ensures
        is_text(seq![BACKSLASH, b]),
{
    assert(is_text(seq![BACKSLASH, b].skip(2)));
}

proof fn lemma_unicode(t: Seq<u8>)
    requires
        t.len() == 6,
        t[0] == BACKSLASH,
        t[1] == 117,
        forall|i: int| 2 <= i < 6 ==> is_hex(#[trigger] t[i]),
    ensures
        is_text(t),
{
    assert(is_text(t.skip(6)));
    assert(is_hex(t[2]) && is_hex(t[3]) && is_hex(t[4]) && is_hex(t[5]));
}

/// Text grows by what a byte completes.
proof fn lemma_text_grows(s: Seq<u8>, n: int, m: int)
    requires
        0 <= n <= m < s.len(),
        is_text(s.subrange(1, n + 1)),
        is_text(s.subrange(n + 1, m + 1)),
    ensures
        is_text(s.subrange(1, m + 1)),
{
    lemma_text_joins(s.subrange(1, n + 1), s.subrange(n + 1, m + 1));
    assert(s.subrange(1, m + 1) =~= s.subrange(1, n + 1) + s.subrange(n + 1, m + 1));
}

/// A byte inside a string leaves a string so far.
proof fn lemma_string_goes_on(s: Seq<u8>, b: u8, escape: bool, hex: int, n: int)
    requires
        string_so_far(s, escape, hex, n),
        hex >= 0,
    ensures
        ({
            let t = s.push(b);
            &&& hex > 0 && is_hex(b) ==> exists|m: int| #[trigger] string_so_far(t, false, hex - 1, m)
            &&& hex <= 0 && escape && is_escape(b) ==> exists|m: int| #[trigger] string_so_far(t, false, 0, m)
            &&& hex <= 0 && escape && b == 117 ==> exists|m: int| #[trigger] string_so_far(t, false, 4, m)
            &&& hex <= 0 && !escape && b == BACKSLASH ==> exists|m: int| #[trigger] string_so_far(t, true, 0, m)
            &&& hex <= 0 && !escape && b >= 32 && b != QUOTE && b != BACKSLASH ==> exists|m: int| #[trigger]
                string_so_far(t, false, 0, m)
            &&& hex <= 0 && !escape && b == QUOTE ==> is_string(t)
        }),
{
    let t = s.push(b);
    let tail = s.skip(n + 1);
    assert(t.subrange(1, n + 1) =~= s.subrange(1, n + 1));
    assert(t.skip(n + 1) =~= tail.push(b));
    let end = t.len() - 1;
    if hex > 0 && is_hex(b) {
        if hex > 1 {
            assert(string_so_far(t, false, hex - 1, n));
        } else {
            assert(t.subrange(n + 1, end + 1) =~= tail.push(b));
            lemma_unicode(tail.push(b));
            lemma_text_grows(t, n, end);
            assert(t.skip(end + 1).len() == 0);
            assert(string_so_far(t, false, 0, end));
        }
    }
    if hex <= 0 && escape {
        assert(tail.push(b) =~= seq![BACKSLASH, b]);
        if is_escape(b) {
            lemma_escaped(b);
            assert(t.subrange(n + 1, end + 1) =~= seq![BACKSLASH, b]);
            lemma_text_grows(t, n, end);
            assert(string_so_far(t, false, 0, end));
        }
        if b == 117 {
            assert(string_so_far(t, false, 4, n));
        }
    }
    if hex <= 0 && !escape {
        assert(n == s.len() - 1);
        if b == BACKSLASH {
            assert(t.skip(n + 1) =~= seq![BACKSLASH]);
            assert(string_so_far(t, true, 0, n));
        } else if b == QUOTE {
            assert(t.subrange(1, t.len() - 1) =~= s.subrange(1, n + 1));
        } else if b >= 32 {
            lemma_unescaped(b);
            assert(t.subrange(n + 1, end + 1) =~= seq![b]);
            lemma_text_grows(t, n, end);
            assert(string_so_far(t, false, 0, end));
        }
    }
}

// ------------------------------------------------------------------- numbers

/// What has been read of a number.
pub(crate) open spec fn number_so_far(s: Seq<u8>, state: Num, integer: bool) -> bool {
    match state {
        Num::Lead => s.len() == 0,
        Num::Sign => s == seq![MINUS],
        Num::Zero => is_whole(s),
        Num::Int => is_whole(s) && magnitude(s)[0] != ZERO,
        Num::Dot => !integer && s.len() > 1 && s.last() == DOT && is_whole(s.drop_last()),
        Num::Frac => !integer && exists|k: int| is_fraction(s, k),
        Num::Exp => !integer && s.len() > 1 && (s.last() == LOWER_E || s.last() == UPPER_E) && is_mantissa(s.drop_last()),
        Num::ExpSign => {
            &&& !integer && s.len() > 2
            &&& s.last() == PLUS || s.last() == MINUS
            &&& s[s.len() - 2] == LOWER_E || s[s.len() - 2] == UPPER_E
            &&& is_mantissa(s.take(s.len() - 2))
        },
        Num::ExpDigits => !integer && exists|k: int| is_scientific(s, k),
    }
}

proof fn lemma_whole_grows(s: Seq<u8>, b: u8)
    requires
        is_whole(s),
        magnitude(s)[0] != ZERO,
        is_digit(b),
    ensures
        is_whole(s.push(b)),
        magnitude(s.push(b))[0] != ZERO,
{
    assert(magnitude(s.push(b)) =~= magnitude(s).push(b));
}

proof fn lemma_whole_starts(s: Seq<u8>, b: u8)
    requires
        s.len() == 0 || s == seq![MINUS],
        is_digit(b),
    ensures
        is_whole(s.push(b)),
        b != ZERO ==> magnitude(s.push(b))[0] != ZERO,
{
    assert(magnitude(s.push(b)) =~= seq![b]);
}

/// A byte inside a number leaves a number so far.
pub(crate) proof fn lemma_number_goes_on(s: Seq<u8>, b: u8, state: Num, integer: bool)
    requires
        number_so_far(s, state, integer),
        state.after(b, integer) is Some,
    ensures
        number_so_far(s.push(b), state.after(b, integer)->0, integer),
{
    let t = s.push(b);
    assert(t.drop_last() =~= s);
    match state {
        Num::Lead => {
            if b == MINUS {
                assert(t =~= seq![MINUS]);
            } else {
                lemma_whole_starts(s, b);
            }
        },
        Num::Sign => lemma_whole_starts(s, b),
        Num::Zero => {},
        Num::Int => {
            if is_digit(b) {
                lemma_whole_grows(s, b);
            }
        },
        Num::Dot => {
            let k = s.len() - 1;
            assert(t.take(k) =~= s.drop_last());
            assert(t.skip(k + 1) =~= seq![b]);
            assert(is_fraction(t, k));
        },
        Num::Frac => {
            let k = choose|k: int| is_fraction(s, k);
            if is_digit(b) {
                assert(t.take(k) =~= s.take(k));
                assert(t.skip(k + 1) =~= s.skip(k + 1).push(b));
                assert(is_fraction(t, k));
            }
        },
        Num::Exp => {
            if is_digit(b) {
                let k = s.len() - 1;
                assert(t.take(k) =~= s.drop_last());
                assert(t.skip(k + 1) =~= seq![b]);
                assert(power(t.skip(k + 1)) =~= seq![b]);
                assert(is_scientific(t, k));
            } else {
                assert(t.take(t.len() - 2) =~= s.drop_last());
            }
        },
        Num::ExpSign => {
            let k = s.len() - 2;
            assert(t.take(k) =~= s.take(k));
            assert(t.skip(k + 1) =~= seq![s.last(), b]);
            assert(power(t.skip(k + 1)) =~= seq![b]);
            assert(is_scientific(t, k));
        },
        Num::ExpDigits => {
            let k = choose|k: int| is_scientific(s, k);
            assert(t.take(k) =~= s.take(k));
            assert(t.skip(k + 1) =~= s.skip(k + 1).push(b));
            assert(power(t.skip(k + 1)) =~= power(s.skip(k + 1)).push(b));
            assert(is_scientific(t, k));
        },
    }
}

/// A number that can end is one.
pub(crate) proof fn lemma_number_ends(s: Seq<u8>, state: Num, integer: bool)
    requires
        number_so_far(s, state, integer),
        state.ends(),
    ensures
        is_number(s, integer),
{
}


// -------------------------------------------------------- arrays and objects

proof fn lemma_padded_by(shape: Shape, ws: Seq<u8>, v: Seq<u8>, room: int)
    requires
        all_space(ws),
        is_value(shape, v, room),
    ensures
        is_padded(shape, ws + v, room),
{
    let s = ws + v;
    let i = ws.len() as int;
    let j = s.len() as int;
    assert(s.take(i) =~= ws);
    assert(s.subrange(i, j) =~= v);
    assert(s.skip(j).len() == 0);
}

proof fn lemma_padded_space(shape: Shape, s: Seq<u8>, b: u8, room: int)
    requires
        is_padded(shape, s, room),
        is_space(b),
    ensures
        is_padded(shape, s.push(b), room),
{
    let (i, j) = choose|i: int, j: int|
        0 <= i <= j <= s.len() && all_space(s.take(i)) && all_space(s.skip(j)) && is_value(
            shape,
            #[trigger] s.subrange(i, j),
            room,
        );
    let t = s.push(b);
    assert(t.take(i) =~= s.take(i));
    assert(t.subrange(i, j) =~= s.subrange(i, j));
    assert(t.skip(j) =~= s.skip(j).push(b));
}

proof fn lemma_list_space(items: Shape, n: nat, s: Seq<u8>, b: u8, room: int)
    requires
        is_list(items, n, s, room),
        is_space(b),
    ensures
        is_list(items, n, s.push(b), room),
{
    let t = s.push(b);
    if n <= 1 {
        lemma_padded_space(items, s, b, room);
    } else {
        let k = choose|k: int|
            0 <= k < s.len() && s[k] == COMMA && is_list(items, (n - 1) as nat, #[trigger] s.take(k), room) && is_padded(
                items,
                s.skip(k + 1),
                room,
            );
        lemma_padded_space(items, s.skip(k + 1), b, room);
        assert(t.take(k) =~= s.take(k));
        assert(t.skip(k + 1) =~= s.skip(k + 1).push(b));
    }
}

/// The inside of an array before a value: nothing yet, or values and a comma.
spec fn before_item(items: Shape, count: int, s: Seq<u8>, room: int) -> bool {
    ||| count == 0 && all_space(s)
    ||| exists|c: int|
        0 <= c < s.len() && s[c] == COMMA && count >= 1 && is_list(items, count as nat, #[trigger] s.take(c), room) && all_space(
            s.skip(c + 1),
        )
}

proof fn lemma_before_item_space(items: Shape, count: int, s: Seq<u8>, b: u8, room: int)
    requires
        before_item(items, count, s, room),
        is_space(b),
    ensures
        before_item(items, count, s.push(b), room),
{
    let t = s.push(b);
    if !(count == 0 && all_space(s)) {
        let c = choose|c: int|
            0 <= c < s.len() && s[c] == COMMA && count >= 1 && is_list(items, count as nat, #[trigger] s.take(c), room)
                && all_space(s.skip(c + 1));
        assert(t.take(c) =~= s.take(c));
        assert(t.skip(c + 1) =~= s.skip(c + 1).push(b));
    }
}

/// A value behind what comes before it makes a longer list.
proof fn lemma_item_done(items: Shape, count: int, s: Seq<u8>, v: Seq<u8>, room: int)
    requires
        before_item(items, count, s, room),
        is_value(items, v, room),
    ensures
        count >= 0,
        is_list(items, (count + 1) as nat, s + v, room),
{
    let t = s + v;
    if count == 0 && all_space(s) {
        lemma_padded_by(items, s, v, room);
    } else {
        let c = choose|c: int|
            0 <= c < s.len() && s[c] == COMMA && count >= 1 && is_list(items, count as nat, #[trigger] s.take(c), room)
                && all_space(s.skip(c + 1));
        lemma_padded_by(items, s.skip(c + 1), v, room);
        assert(t.take(c) =~= s.take(c));
        assert(t.skip(c + 1) =~= s.skip(c + 1) + v);
    }
}

proof fn lemma_array_closes(items: Shape, count: int, min: int, max: int, s: Seq<u8>, room: int)
    requires
        s.len() > 0,
        s[0] == OPEN_BRACKET,
        count >= min,
        count <= max,
        (count == 0 && all_space(s.skip(1))) || (count >= 1 && is_list(items, count as nat, s.skip(1), room)),
    ensures
        is_array(items, min, max, s.push(CLOSE_BRACKET), room),
{
    let t = s.push(CLOSE_BRACKET);
    assert(t.subrange(1, t.len() - 1) =~= s.skip(1));
    if count >= 1 {
        assert(in_bounds(count as nat, min, max));
    }
}

proof fn lemma_member_space(props: Seq<Property>, k: int, s: Seq<u8>, b: u8, room: int)
    requires
        is_member(props, k, s, room),
        is_space(b),
    ensures
        is_member(props, k, s.push(b), room),
{
    let (x, y, c) = choose|x: int, y: int, c: int|
        0 <= x <= y <= c < s.len() && all_space(s.take(x)) && is_key(props, k, #[trigger] s.subrange(x, y)) && all_space(
            #[trigger] s.subrange(y, c),
        ) && s[c] == COLON && is_padded(shape_at(props, k), s.skip(c + 1), room);
    let t = s.push(b);
    lemma_padded_space(shape_at(props, k), s.skip(c + 1), b, room);
    assert(t.take(x) =~= s.take(x));
    assert(t.subrange(x, y) =~= s.subrange(x, y));
    assert(t.subrange(y, c) =~= s.subrange(y, c));
    assert(t.skip(c + 1) =~= s.skip(c + 1).push(b));
}

proof fn lemma_members_space(props: Seq<Property>, k: int, s: Seq<u8>, b: u8, room: int)
    requires
        is_members(props, k, s, room),
        is_space(b),
    ensures
        is_members(props, k, s.push(b), room),
{
    let t = s.push(b);
    if opens(props, k) && is_member(props, k, s, room) {
        lemma_member_space(props, k, s, b, room);
    } else {
        let (c, j) = choose|c: int, j: int|
            0 <= c < s.len() && s[c] == COMMA && #[trigger] follows(props, j, k) && is_members(
                props,
                j,
                #[trigger] s.take(c),
                room,
            ) && is_member(props, k, s.skip(c + 1), room);
        lemma_member_space(props, k, s.skip(c + 1), b, room);
        assert(t.take(c) =~= s.take(c));
        assert(t.skip(c + 1) =~= s.skip(c + 1).push(b));
        assert(follows(props, j, k));
    }
}

/// Whether a property may come at index `next`.
pub open spec fn may_come(props: Seq<Property>, next: int, key: int) -> bool {
    if props.len() == 0 {
        key == 0
    } else {
        keys_from(props, next).contains(key)
    }
}

/// The inside of an object before a key: nothing yet, or members and a comma.
spec fn before_key(props: Seq<Property>, next: int, s: Seq<u8>, room: int) -> bool {
    ||| next == 0 && all_space(s)
    ||| exists|c: int|
        0 <= c < s.len() && s[c] == COMMA && next >= 1 && is_members(props, next - 1, #[trigger] s.take(c), room) && all_space(
            s.skip(c + 1),
        )
}

/// The inside of an object up to a key.
spec fn after_key(props: Seq<Property>, next: int, key: int, s: Seq<u8>, room: int) -> bool {
    exists|a: int, b: int|
        0 <= a <= b <= s.len() && before_key(props, next, s.take(a), room) && is_key(props, key, #[trigger] s.subrange(a, b))
            && all_space(s.skip(b))
}

/// The inside of an object up to a colon.
spec fn before_value(props: Seq<Property>, next: int, key: int, s: Seq<u8>, room: int) -> bool {
    exists|m: int|
        0 <= m < s.len() && s[m] == COLON && after_key(props, next, key, #[trigger] s.take(m), room) && all_space(s.skip(m + 1))
}

proof fn lemma_before_key_space(props: Seq<Property>, next: int, s: Seq<u8>, b: u8, room: int)
    requires
        before_key(props, next, s, room),
        is_space(b),
    ensures
        before_key(props, next, s.push(b), room),
{
    let t = s.push(b);
    if !(next == 0 && all_space(s)) {
        let c = choose|c: int|
            0 <= c < s.len() && s[c] == COMMA && next >= 1 && is_members(props, next - 1, #[trigger] s.take(c), room)
                && all_space(s.skip(c + 1));
        assert(t.take(c) =~= s.take(c));
        assert(t.skip(c + 1) =~= s.skip(c + 1).push(b));
    }
}

proof fn lemma_after_key_space(props: Seq<Property>, next: int, key: int, s: Seq<u8>, b: u8, room: int)
    requires
        after_key(props, next, key, s, room),
        is_space(b),
    ensures
        after_key(props, next, key, s.push(b), room),
{
    let (x, y) = choose|x: int, y: int|
        0 <= x <= y <= s.len() && before_key(props, next, s.take(x), room) && is_key(props, key, #[trigger] s.subrange(x, y))
            && all_space(s.skip(y));
    let t = s.push(b);
    assert(t.take(x) =~= s.take(x));
    assert(t.subrange(x, y) =~= s.subrange(x, y));
    assert(t.skip(y) =~= s.skip(y).push(b));
}

proof fn lemma_before_value_space(props: Seq<Property>, next: int, key: int, s: Seq<u8>, b: u8, room: int)
    requires
        before_value(props, next, key, s, room),
        is_space(b),
    ensures
        before_value(props, next, key, s.push(b), room),
{
    let m = choose|m: int|
        0 <= m < s.len() && s[m] == COLON && after_key(props, next, key, #[trigger] s.take(m), room) && all_space(s.skip(m + 1));
    let t = s.push(b);
    assert(t.take(m) =~= s.take(m));
    assert(t.skip(m + 1) =~= s.skip(m + 1).push(b));
}

proof fn lemma_key_done(props: Seq<Property>, next: int, key: int, s: Seq<u8>, v: Seq<u8>, room: int)
    requires
        before_key(props, next, s, room),
        is_key(props, key, v),
    ensures
        after_key(props, next, key, s + v, room),
{
    let t = s + v;
    let a = s.len() as int;
    let b = t.len() as int;
    assert(t.take(a) =~= s);
    assert(t.subrange(a, b) =~= v);
    assert(t.skip(b).len() == 0);
}

/// A value behind what comes before it makes a longer list of members.
proof fn lemma_member_done(props: Seq<Property>, next: int, key: int, s: Seq<u8>, v: Seq<u8>, room: int)
    requires
        before_value(props, next, key, s, room),
        may_come(props, next, key),
        is_value(shape_at(props, key), v, room),
    ensures
        is_members(props, key, s + v, room),
{
    let t = s + v;
    let m = choose|m: int|
        0 <= m < s.len() && s[m] == COLON && after_key(props, next, key, #[trigger] s.take(m), room) && all_space(s.skip(m + 1));
    let u = s.take(m);
    let (a, b) = choose|a: int, b: int|
        0 <= a <= b <= u.len() && before_key(props, next, u.take(a), room) && is_key(props, key, #[trigger] u.subrange(a, b))
            && all_space(u.skip(b));
    let w = u.take(a);
    lemma_padded_by(shape_at(props, key), s.skip(m + 1), v, room);
    if next == 0 && all_space(w) {
        assert(t.take(a) =~= w);
        assert(t.subrange(a, b) =~= u.subrange(a, b));
        assert(t.subrange(b, m) =~= u.skip(b));
        assert(t.skip(m + 1) =~= s.skip(m + 1) + v);
        assert(is_member(props, key, t, room));
        assert(opens(props, key));
    } else {
        let c = choose|c: int|
            0 <= c < w.len() && w[c] == COMMA && next >= 1 && is_members(props, next - 1, #[trigger] w.take(c), room)
                && all_space(w.skip(c + 1));
        let r = t.skip(c + 1);
        assert(r.take(a - c - 1) =~= w.skip(c + 1));
        assert(r.subrange(a - c - 1, b - c - 1) =~= u.subrange(a, b));
        assert(r.subrange(b - c - 1, m - c - 1) =~= u.skip(b));
        assert(r.skip(m - c - 1 + 1) =~= s.skip(m + 1) + v);
        assert(is_member(props, key, r, room));
        assert(t.take(c) =~= w.take(c));
        assert(follows(props, next - 1, key));
    }
}

proof fn lemma_object_closes(props: Seq<Property>, next: int, s: Seq<u8>, room: int)
    requires
        s.len() > 0,
        s[0] == OPEN_BRACE,
        may_end(props, next),
        (next == 0 && all_space(s.skip(1))) || is_members(props, next - 1, s.skip(1), room),
    ensures
        is_object(props, s.push(CLOSE_BRACE), room),
{
    let t = s.push(CLOSE_BRACE);
    assert(t.subrange(1, t.len() - 1) =~= s.skip(1));
    if is_members(props, next - 1, s.skip(1), room) {
        assert(may_end_behind(props, next - 1));
    }
}


// -------------------------------------------------------------------- frames

/// What has been read by a frame itself, before the frame above it began.
spec fn frame_so_far(f: FrameV, s: Seq<u8>, room: int) -> bool {
    match f {
        FrameV::Root { shape, started, done } => if done {
            started && is_padded(shape, s, room)
        } else {
            all_space(s)
        },
        FrameV::Obj { props, next, key, phase } => s.len() > 0 && s[0] == OPEN_BRACE && object_so_far(
            props,
            next,
            key,
            phase,
            s.skip(1),
            room,
        ),
        FrameV::Arr { items, count, min, max, phase } => {
            &&& s.len() > 0 && s[0] == OPEN_BRACKET
            &&& 0 <= count && 0 <= max
            &&& match phase {
                ArrPhase::ValueOrEnd => count == 0 && all_space(s.skip(1)),
                ArrPhase::Value => before_item(items, count, s.skip(1), room),
                ArrPhase::InValue => count < max && before_item(items, count, s.skip(1), room),
                ArrPhase::CommaOrEnd => 1 <= count <= max && is_list(items, count as nat, s.skip(1), room),
            }
        },
        FrameV::Str { escape, hex } => hex >= 0 && exists|n: int| #[trigger] string_so_far(s, escape, hex, n),
        FrameV::Num { state, integer } => number_so_far(s, state, integer),
        FrameV::Choice { options, alive, at } => {
            &&& s.len() == at
            &&& forall|i: int| #[trigger]
                alive.contains(i) ==> 0 <= i < options.len() && options[i].len() >= at && options[i].take(at) == s
        },
    }
}

spec fn object_so_far(props: Seq<Property>, next: int, key: int, phase: ObjPhase, s: Seq<u8>, room: int) -> bool {
    match phase {
        ObjPhase::KeyOrEnd => next == 0 && all_space(s),
        ObjPhase::Key | ObjPhase::InKey => before_key(props, next, s, room),
        ObjPhase::AfterKey => may_come(props, next, key) && after_key(props, next, key, s, room),
        ObjPhase::BeforeValue | ObjPhase::InValue => may_come(props, next, key) && before_value(props, next, key, s, room),
        ObjPhase::CommaOrEnd => next == key + 1 && 0 <= key && is_members(props, key, s, room),
    }
}

/// The shape of the value that a frame waits for.
spec fn goal(f: FrameV) -> Option<Shape> {
    match f {
        FrameV::Root { shape, started, done } => if started && !done {
            Some(shape)
        } else {
            None
        },
        FrameV::Obj { props, key, phase, .. } => if phase is InValue {
            Some(shape_at(props, key))
        } else {
            None
        },
        FrameV::Arr { items, phase, .. } => if phase is InValue {
            Some(items)
        } else {
            None
        },
        _ => None,
    }
}

/// Whether a frame reads a value of a shape.
spec fn begins(f: FrameV, shape: Shape) -> bool {
    match f {
        FrameV::Root { .. } => false,
        FrameV::Obj { props, .. } => match shape {
            Shape::Any => props == Seq::<Property>::empty(),
            Shape::Object(p) => props == p,
            _ => false,
        },
        FrameV::Arr { items, min, max, .. } => match shape {
            Shape::Any => items is Any && min == 0 && max == u32::MAX,
            Shape::Array { items: i, min: a, max: b } => items == *i && min == a && max == b,
            _ => false,
        },
        FrameV::Str { .. } => shape is Any || shape is Str,
        FrameV::Num { integer, .. } => match shape {
            Shape::Any => !integer,
            Shape::Num { integer: i } => integer == i,
            _ => false,
        },
        FrameV::Choice { options, alive, .. } => match shape {
            Shape::Any => options == words(),
            Shape::Bool => options == words() && !alive.contains(2),
            Shape::Null => options == words() && !alive.contains(0) && !alive.contains(1),
            Shape::Enum(o) => options == o,
            _ => false,
        },
    }
}

/// Whether a frame reads what the frame below it waits for.
spec fn serves(parent: FrameV, child: FrameV) -> bool {
    ||| goal(parent) matches Some(shape) && begins(child, shape)
    ||| match parent {
        FrameV::Obj { props, next, phase, .. } => phase is InKey && (if props.len() == 0 {
            child is Str
        } else {
            child matches FrameV::Choice { options, alive, .. } && options == key_options(props) && (forall|i: int|
                #[trigger] alive.contains(i) ==> keys_from(props, next).contains(i))
        }),
        _ => false,
    }
}

/// Everything read, put together.
spec fn flat(texts: Seq<Seq<u8>>) -> Seq<u8>
    decreases texts.len(),
{
    if texts.len() == 0 {
        Seq::empty()
    } else {
        flat(texts.drop_last()) + texts.last()
    }
}

/// Whether the frames of a stack have read the given texts, in a document of a shape.
spec fn fits(shape: Shape, s: Seq<FrameV>, texts: Seq<Seq<u8>>) -> bool {
    &&& 0 < s.len() == texts.len()
    &&& s.len() <= MAX_DEPTH
    &&& s[0] matches FrameV::Root { shape: r, .. } && r == shape
    &&& forall|i: int| 0 < i < s.len() ==> !((#[trigger] s[i]) is Root)
    &&& forall|i: int| 0 <= i < s.len() ==> frame_so_far(#[trigger] s[i], texts[i], MAX_DEPTH - 1 - i)
    &&& forall|i: int| 0 < i < s.len() ==> serves(s[i - 1], #[trigger] s[i])
}

/// Whether a frame may take the place of another: it reads the same.
spec fn continues(f: FrameV, g: FrameV) -> bool {
    match (f, g) {
        (FrameV::Root { shape: a, .. }, FrameV::Root { shape: b, .. }) => a == b,
        (FrameV::Obj { props: a, .. }, FrameV::Obj { props: b, .. }) => a == b,
        (FrameV::Arr { items: a, min: m, max: x, .. }, FrameV::Arr { items: b, min: n, max: y, .. }) => a == b && m == n
            && x == y,
        (FrameV::Str { .. }, FrameV::Str { .. }) => true,
        (FrameV::Num { integer: a, .. }, FrameV::Num { integer: b, .. }) => a == b,
        (FrameV::Choice { options: a, alive: p, .. }, FrameV::Choice { options: b, alive: q, .. }) => a == b && (forall|
            i: int,
        | #[trigger] q.contains(i) ==> p.contains(i)),
        _ => false,
    }
}

proof fn lemma_replaced(shape: Shape, s: Seq<FrameV>, texts: Seq<Seq<u8>>, f: FrameV, v: Seq<u8>) -> (r: Seq<Seq<u8>>)
    requires
        fits(shape, s, texts),
        continues(s.last(), f),
        frame_so_far(f, texts.last() + v, MAX_DEPTH - s.len()),
    ensures
        fits(shape, with_top(s, f), r),
        flat(r) == flat(texts) + v,
        r.last() == texts.last() + v,
        r.drop_last() == texts.drop_last(),
{
    let n = s.len() - 1;
    let r = texts.update(n, texts.last() + v);
    let t = with_top(s, f);
    assert(r.drop_last() =~= texts.drop_last());
    assert(flat(r) =~= flat(texts) + v);
    assert forall|i: int| 0 <= i < t.len() implies frame_so_far(#[trigger] t[i], r[i], MAX_DEPTH - 1 - i) by {
        if i < n {
            assert(frame_so_far(s[i], texts[i], MAX_DEPTH - 1 - i));
        }
    }
    assert forall|i: int| 0 < i < t.len() implies serves(t[i - 1], #[trigger] t[i]) by {
        assert(serves(s[i - 1], s[i]));
        if i == n {
            lemma_serves_on(s[n - 1], s[n], f);
        }
    }
    r
}

proof fn lemma_serves_on(parent: FrameV, f: FrameV, g: FrameV)
    requires
        serves(parent, f),
        continues(f, g),
    ensures
        serves(parent, g),
{
}

proof fn lemma_added(shape: Shape, s: Seq<FrameV>, texts: Seq<Seq<u8>>, f: FrameV, v: Seq<u8>) -> (r: Seq<Seq<u8>>)
    requires
        fits(shape, s, texts),
        s.len() < MAX_DEPTH,
        serves(s.last(), f),
        !(f is Root),
        frame_so_far(f, v, MAX_DEPTH - s.len() - 1),
    ensures
        fits(shape, s.push(f), r),
        flat(r) == flat(texts) + v,
        r == texts.push(v),
{
    let r = texts.push(v);
    let t = s.push(f);
    assert(r.drop_last() =~= texts);
    assert forall|i: int| 0 <= i < t.len() implies frame_so_far(#[trigger] t[i], r[i], MAX_DEPTH - 1 - i) by {
        if i < s.len() {
            assert(frame_so_far(s[i], texts[i], MAX_DEPTH - 1 - i));
        }
    }
    assert forall|i: int| 0 < i < t.len() implies serves(t[i - 1], #[trigger] t[i]) by {
        if i < s.len() {
            assert(serves(s[i - 1], s[i]));
        }
    }
    r
}

/// Whether a frame has read what the one below it waits for.
spec fn closed(f: FrameV, v: Seq<u8>, matched: Option<int>, room: int) -> bool {
    match f {
        FrameV::Root { .. } => false,
        FrameV::Obj { props, .. } => matched is None && is_object(props, v, room),
        FrameV::Arr { items, min, max, .. } => matched is None && is_array(items, min, max, v, room),
        FrameV::Str { .. } => matched is None && is_string(v),
        FrameV::Num { integer, .. } => matched is None && is_number(v, integer),
        FrameV::Choice { options, alive, .. } => matched matches Some(i) && alive.contains(i) && 0 <= i < options.len()
            && v == options[i],
    }
}

/// Whether a frame is given what it waits for.
spec fn meets(f: FrameV, v: Seq<u8>, matched: Option<int>, room: int) -> bool {
    ||| goal(f) matches Some(shape) && is_value(shape, v, room)
    ||| match f {
        FrameV::Obj { props, next, phase, .. } => phase is InKey && {
            let key = match matched {
                Some(i) => i,
                None => 0,
            };
            may_come(props, next, key) && is_key(props, key, v)
        },
        _ => false,
    }
}

proof fn lemma_meets(parent: FrameV, child: FrameV, v: Seq<u8>, matched: Option<int>, room: int)
    requires
        serves(parent, child),
        closed(child, v, matched, room - 1),
        room >= 1,
    ensures
        meets(parent, v, matched, room),
{
    match goal(parent) {
        Some(shape) => {
            if let FrameV::Choice { options, alive, .. } = child {
                let i = matched->0;
                assert(options[i] == v);
                if options == words() {
                    assert(words().contains(v));
                    assert(i == 0 || i == 1 || i == 2);
                }
            }
        },
        None => {},
    }
}

/// A frame that is given what it waits for takes it in.
proof fn lemma_finished(shape: Shape, s: Seq<FrameV>, texts: Seq<Seq<u8>>, v: Seq<u8>, matched: Option<int>) -> (r: Seq<
    Seq<u8>,
>)
    requires
        fits(shape, s, texts),
        meets(s.last(), v, matched, MAX_DEPTH - s.len()),
        finish(s, matched) is Some,
    ensures
        fits(shape, finish(s, matched)->0, r),
        flat(r) == flat(texts) + v,
{
    let f = s.last();
    let t = texts.last();
    let room = MAX_DEPTH - s.len();
    let g = finish(s, matched)->0.last();
    assert(frame_so_far(s[s.len() - 1], texts[s.len() - 1], MAX_DEPTH - s.len()));
    match f {
        FrameV::Root { shape: sh, started, done } => {
            lemma_padded_by(sh, t, v, room);
        },
        FrameV::Obj { props, next, key, phase } => {
            let inner = t.skip(1);
            assert((t + v).skip(1) =~= inner + v);
            if phase is InKey {
                let k = match matched {
                    Some(i) => i,
                    None => 0,
                };
                lemma_key_done(props, next, k, inner, v, room);
            } else {
                lemma_member_done(props, next, key, inner, v, room);
                lemma_key_index(props, next, key, inner, room);
            }
        },
        FrameV::Arr { items, count, min, max, phase } => {
            let inner = t.skip(1);
            assert((t + v).skip(1) =~= inner + v);
            lemma_item_done(items, count, inner, v, room);
        },
        _ => {},
    }
    lemma_replaced(shape, s, texts, g, v)
}

/// The property whose value is read has an index.
proof fn lemma_key_index(props: Seq<Property>, next: int, key: int, s: Seq<u8>, room: int)
    requires
        before_value(props, next, key, s, room),
        may_come(props, next, key),
    ensures
        key >= 0,
{
    let m = choose|m: int|
        0 <= m < s.len() && s[m] == COLON && after_key(props, next, key, #[trigger] s.take(m), room) && all_space(s.skip(m + 1));
    let u = s.take(m);
    let (a, b) = choose|a: int, b: int|
        0 <= a <= b <= u.len() && before_key(props, next, u.take(a), room) && is_key(props, key, #[trigger] u.subrange(a, b))
            && all_space(u.skip(b));
    assert(is_key(props, key, u.subrange(a, b)));
}


// --------------------------------------------------------------------- bytes

/// A frame that has read all it can hands what it read to the one below.
proof fn lemma_popped(shape: Shape, s: Seq<FrameV>, texts: Seq<Seq<u8>>, v: Seq<u8>, matched: Option<int>) -> (r: Seq<
    Seq<u8>,
>)
    requires
        fits(shape, s, texts),
        closed(s.last(), texts.last() + v, matched, MAX_DEPTH - s.len()),
        finish(s.drop_last(), matched) is Some,
    ensures
        fits(shape, finish(s.drop_last(), matched)->0, r),
        flat(r) == flat(texts) + v,
{
    let n = s.len() - 1;
    assert(n > 0);
    let p = s.drop_last();
    let q = texts.drop_last();
    assert(serves(s[n - 1], s[n]));
    assert forall|i: int| 0 <= i < p.len() implies frame_so_far(#[trigger] p[i], q[i], MAX_DEPTH - 1 - i) by {
        assert(frame_so_far(s[i], texts[i], MAX_DEPTH - 1 - i));
    }
    assert forall|i: int| 0 < i < p.len() implies serves(p[i - 1], #[trigger] p[i]) by {
        assert(serves(s[i - 1], s[i]));
    }
    assert(fits(shape, p, q));
    lemma_meets(s[n - 1], s[n], texts.last() + v, matched, MAX_DEPTH - n);
    let r = lemma_finished(shape, p, q, texts.last() + v, matched);
    assert(flat(r) =~= flat(texts) + v);
    r
}

/// Whitespace between scalars changes nothing but the text.
proof fn lemma_space(shape: Shape, s: Seq<FrameV>, texts: Seq<Seq<u8>>, b: u8) -> (r: Seq<Seq<u8>>)
    requires
        fits(shape, s, texts),
        is_space(b),
        s.last() is Root || s.last() is Obj || s.last() is Arr,
    ensures
        fits(shape, s, r),
        flat(r) == flat(texts).push(b),
{
    let f = s.last();
    let t = texts.last();
    let room = MAX_DEPTH - s.len();
    assert(frame_so_far(s[s.len() - 1], texts[s.len() - 1], room));
    assert(t + seq![b] =~= t.push(b));
    match f {
        FrameV::Root { shape: sh, started, done } => {
            if done {
                lemma_padded_space(sh, t, b, room);
            }
        },
        FrameV::Obj { props, next, key, phase } => {
            let inner = t.skip(1);
            assert(t.push(b).skip(1) =~= inner.push(b));
            match phase {
                ObjPhase::KeyOrEnd => {},
                ObjPhase::Key | ObjPhase::InKey => lemma_before_key_space(props, next, inner, b, room),
                ObjPhase::AfterKey => lemma_after_key_space(props, next, key, inner, b, room),
                ObjPhase::BeforeValue | ObjPhase::InValue => lemma_before_value_space(props, next, key, inner, b, room),
                ObjPhase::CommaOrEnd => lemma_members_space(props, key, inner, b, room),
            }
        },
        FrameV::Arr { items, count, min, max, phase } => {
            let inner = t.skip(1);
            assert(t.push(b).skip(1) =~= inner.push(b));
            match phase {
                ArrPhase::ValueOrEnd => {},
                ArrPhase::Value | ArrPhase::InValue => lemma_before_item_space(items, count, inner, b, room),
                ArrPhase::CommaOrEnd => lemma_list_space(items, count as nat, inner, b, room),
            }
        },
        _ => {},
    }
    let r = lemma_replaced(shape, s, texts, f, seq![b]);
    assert(with_top(s, f) =~= s);
    assert(flat(texts) + seq![b] =~= flat(texts).push(b));
    r
}

/// What has been read of a string is what a frame inside it has read.
proof fn lemma_string_frame(s: Seq<u8>, escape: bool, hex: int, n: int, room: int)
    requires
        hex >= 0,
        string_so_far(s, escape, hex, n),
    ensures
        frame_so_far(FrameV::Str { escape, hex }, s, room),
{
    let f = FrameV::Str { escape, hex };
    assert(f matches FrameV::Str { escape: e, hex: h } && e == escape && h == hex);
    assert(f matches FrameV::Str { escape: e, hex: h } && exists|m: int| #[trigger] string_so_far(s, e, h, m));
}

/// A quote begins a string.
proof fn lemma_opened(s: Seq<u8>, room: int)
    requires
        s == seq![QUOTE],
    ensures
        frame_so_far(FrameV::Str { escape: false, hex: 0 }, s, room),
{
    assert(s.subrange(1, 1).len() == 0);
    assert(s.skip(1).len() == 0);
    lemma_string_frame(s, false, 0, 0, room);
}

/// A byte inside a string, and what is inside it then.
proof fn lemma_string_next(shape: Shape, s: Seq<FrameV>, texts: Seq<Seq<u8>>, b: u8, escape: bool, hex: int) -> (r: Seq<
    Seq<u8>,
>)
    requires
        fits(shape, s, texts),
        s.last() is Str,
        hex >= 0,
        exists|m: int| #[trigger] string_so_far(texts.last().push(b), escape, hex, m),
    ensures
        fits(shape, with_top(s, FrameV::Str { escape, hex }), r),
        flat(r) == flat(texts).push(b),
{
    let t = texts.last().push(b);
    let m = choose|m: int| #[trigger] string_so_far(t, escape, hex, m);
    lemma_string_frame(t, escape, hex, m, MAX_DEPTH - s.len());
    assert(texts.last() + seq![b] =~= t);
    assert(flat(texts) + seq![b] =~= flat(texts).push(b));
    lemma_replaced(shape, s, texts, FrameV::Str { escape, hex }, seq![b])
}

/// A byte inside a string.
proof fn lemma_string_step(shape: Shape, s: Seq<FrameV>, texts: Seq<Seq<u8>>, b: u8, escape: bool, hex: int) -> (r: Seq<
    Seq<u8>,
>)
    requires
        fits(shape, s, texts),
        s.last() == (FrameV::Str { escape, hex }),
        string_step(s, b, escape, hex) is Some,
    ensures
        fits(shape, string_step(s, b, escape, hex)->0, r),
        flat(r) == flat(texts).push(b),
{
    let t = texts.last();
    let f = s.last();
    assert(frame_so_far(s[s.len() - 1], texts[s.len() - 1], MAX_DEPTH - s.len()));
    assert(f matches FrameV::Str { escape: e, hex: h } && h >= 0 && exists|n: int| #[trigger] string_so_far(t, e, h, n));
    let n = choose|n: int| #[trigger] string_so_far(t, escape, hex, n);
    lemma_string_goes_on(t, b, escape, hex, n);
    if hex > 0 {
        lemma_string_next(shape, s, texts, b, false, hex - 1)
    } else if escape {
        if is_escape(b) {
            lemma_string_next(shape, s, texts, b, false, 0)
        } else {
            lemma_string_next(shape, s, texts, b, false, 4)
        }
    } else if b == QUOTE {
        assert(t + seq![b] =~= t.push(b));
        assert(flat(texts) + seq![b] =~= flat(texts).push(b));
        lemma_popped(shape, s, texts, seq![b], None)
    } else if b == BACKSLASH {
        lemma_string_next(shape, s, texts, b, true, 0)
    } else {
        let r = lemma_string_next(shape, s, texts, b, false, 0);
        assert(s.last() == (FrameV::Str { escape: false, hex }));
        assert(hex == 0);
        assert(with_top(s, FrameV::Str { escape: false, hex: 0 }) =~= s);
        r
    }
}

/// A byte leaves a stack that has read one byte more.
#[verifier::rlimit(60)]
#[verifier::spinoff_prover]
proof fn lemma_step(shape: Shape, s: Seq<FrameV>, texts: Seq<Seq<u8>>, b: u8, fuel: nat) -> (r: Seq<Seq<u8>>)
    requires
        fits(shape, s, texts),
        step(s, b, fuel) is Some,
    ensures
        fits(shape, step(s, b, fuel)->0, r),
        flat(r) == flat(texts).push(b),
    decreases fuel, 5nat,
{
    let t = texts.last();
    assert(frame_so_far(s[s.len() - 1], texts[s.len() - 1], MAX_DEPTH - s.len()));
    assert(t + seq![b] =~= t.push(b));
    assert(t + Seq::<u8>::empty() =~= t);
    assert(flat(texts) + seq![b] =~= flat(texts).push(b));
    assert(flat(texts) + Seq::<u8>::empty() =~= flat(texts));
    match s.last() {
        FrameV::Str { escape, hex } => lemma_string_step(shape, s, texts, b, escape, hex),
        FrameV::Num { state, integer } => match state.after(b, integer) {
            Some(n) => {
                lemma_number_goes_on(t, b, state, integer);
                lemma_replaced(shape, s, texts, FrameV::Num { state: n, integer }, seq![b])
            },
            None => {
                lemma_number_ends(t, state, integer);
                let q = lemma_popped(shape, s, texts, Seq::empty(), None);
                lemma_step(shape, finish(s.drop_last(), None)->0, q, b, (fuel - 1) as nat)
            },
        },
        FrameV::Choice { options, alive, at } => {
            let narrowed = narrow(options, alive, at, b);
            if some_alive(narrowed) {
                let f = FrameV::Choice { options, alive: narrowed, at: at + 1 };
                assert forall|i: int| #[trigger] narrowed.contains(i) implies 0 <= i < options.len() && options[i].len()
                    >= at + 1 && options[i].take(at + 1) == t.push(b) by {
                    assert(alive.contains(i));
                    assert(options[i].take(at + 1) =~= options[i].take(at).push(b));
                }
                lemma_replaced(shape, s, texts, f, seq![b])
            } else {
                lemma_settled(options, alive, at, 0);
                let i = settled_from(options, alive, at, 0)->0;
                assert(options[i].take(at) =~= options[i]);
                let q = lemma_popped(shape, s, texts, Seq::empty(), Some(i));
                lemma_step(shape, finish(s.drop_last(), Some(i))->0, q, b, (fuel - 1) as nat)
            }
        },
        _ => {
            if is_space(b) {
                lemma_space(shape, s, texts, b)
            } else {
                lemma_structure(shape, s, texts, b, fuel)
            }
        },
    }
}

#[verifier::rlimit(60)]
#[verifier::spinoff_prover]
proof fn lemma_structure(shape: Shape, s: Seq<FrameV>, texts: Seq<Seq<u8>>, b: u8, fuel: nat) -> (r: Seq<Seq<u8>>)
    requires
        fits(shape, s, texts),
        structure(s, b, fuel) is Some,
    ensures
        fits(shape, structure(s, b, fuel)->0, r),
        flat(r) == flat(texts).push(b),
    decreases fuel, 4nat,
{
    let room = MAX_DEPTH - s.len();
    let t = texts.last();
    assert(frame_so_far(s[s.len() - 1], texts[s.len() - 1], MAX_DEPTH - s.len()));
    assert(t + seq![b] =~= t.push(b));
    assert(t + Seq::<u8>::empty() =~= t);
    assert(flat(texts) + seq![b] =~= flat(texts).push(b));
    assert(flat(texts) + Seq::<u8>::empty() =~= flat(texts));
    match s.last() {
        FrameV::Root { shape: sh, started, done } => {
            let f = FrameV::Root { shape: sh, started: true, done: false };
            let q = lemma_replaced(shape, s, texts, f, Seq::empty());
            lemma_begin(shape, with_top(s, f), q, sh, b, fuel)
        },
        FrameV::Obj { props, next, key, phase } => lemma_object_step(shape, s, texts, b, fuel),
        FrameV::Arr { items, count, min, max, phase } => {
            let inner = t.skip(1);
            assert(t.push(b).skip(1) =~= inner.push(b));
            let f = FrameV::Arr { items, count, min, max, phase: ArrPhase::InValue };
            if b == CLOSE_BRACKET && count >= min && !(phase is Value) {
                lemma_array_closes(items, count, min, max, t, room);
                lemma_popped(shape, s, texts, seq![b], None)
            } else if phase is CommaOrEnd {
                let g = FrameV::Arr { items, count, min, max, phase: ArrPhase::Value };
                let k = inner.len() as int;
                assert(inner.push(b).take(k) =~= inner);
                assert(inner.push(b).skip(k + 1).len() == 0);
                lemma_replaced(shape, s, texts, g, seq![b])
            } else {
                let q = lemma_replaced(shape, s, texts, f, Seq::empty());
                lemma_begin(shape, with_top(s, f), q, items, b, fuel)
            }
        },
        _ => texts,
    }
}

/// A byte between the scalars of an object.
#[verifier::rlimit(60)]
#[verifier::spinoff_prover]
proof fn lemma_object_step(shape: Shape, s: Seq<FrameV>, texts: Seq<Seq<u8>>, b: u8, fuel: nat) -> (r: Seq<Seq<u8>>)
    requires
        fits(shape, s, texts),
        s.last() is Obj,
        structure(s, b, fuel) is Some,
    ensures
        fits(shape, structure(s, b, fuel)->0, r),
        flat(r) == flat(texts).push(b),
    decreases fuel, 3nat,
{
    let room = MAX_DEPTH - s.len();
    let t = texts.last();
    assert(frame_so_far(s[s.len() - 1], texts[s.len() - 1], MAX_DEPTH - s.len()));
    assert(t + seq![b] =~= t.push(b));
    assert(t + Seq::<u8>::empty() =~= t);
    assert(flat(texts) + seq![b] =~= flat(texts).push(b));
    assert(flat(texts) + Seq::<u8>::empty() =~= flat(texts));
    let inner = t.skip(1);
    let k = inner.len() as int;
    assert(t.push(b).skip(1) =~= inner.push(b));
    assert(inner.push(b).take(k) =~= inner);
    assert(inner.push(b).skip(k + 1).len() == 0);
    match s.last() {
        FrameV::Obj { props, next, key, phase } => match phase {
            ObjPhase::KeyOrEnd | ObjPhase::Key => {
                if b == QUOTE {
                    let f = FrameV::Obj { props, next, key, phase: ObjPhase::InKey };
                    let q = lemma_replaced(shape, s, texts, f, Seq::empty());
                    let u = with_top(s, f);
                    if props.len() == 0 {
                        let g = FrameV::Str { escape: false, hex: 0 };
                        lemma_opened(seq![b], room - 1);
                        lemma_added(shape, u, q, g, seq![b])
                    } else {
                        lemma_choice(shape, u, q, key_options(props), keys_from(props, next), b, fuel)
                    }
                } else {
                    lemma_object_closes(props, next, t, room);
                    lemma_popped(shape, s, texts, seq![b], None)
                }
            },
            ObjPhase::AfterKey => {
                let f = FrameV::Obj { props, next, key, phase: ObjPhase::BeforeValue };
                assert(before_value(props, next, key, inner.push(b), room));
                lemma_replaced(shape, s, texts, f, seq![b])
            },
            ObjPhase::BeforeValue => {
                let f = FrameV::Obj { props, next, key, phase: ObjPhase::InValue };
                let q = lemma_replaced(shape, s, texts, f, Seq::empty());
                lemma_begin(shape, with_top(s, f), q, shape_at(props, key), b, fuel)
            },
            ObjPhase::CommaOrEnd => {
                if b == COMMA && (props.len() == 0 || some_alive(keys_from(props, next))) {
                    let f = FrameV::Obj { props, next, key, phase: ObjPhase::Key };
                    assert(before_key(props, next, inner.push(b), room));
                    lemma_replaced(shape, s, texts, f, seq![b])
                } else {
                    lemma_object_closes(props, next, t, room);
                    lemma_popped(shape, s, texts, seq![b], None)
                }
            },
            _ => texts,
        },
        _ => texts,
    }
}

/// A byte that begins one of a fixed set of byte strings.
proof fn lemma_choice(
    shape: Shape,
    s: Seq<FrameV>,
    texts: Seq<Seq<u8>>,
    options: Seq<Seq<u8>>,
    alive: Set<int>,
    b: u8,
    fuel: nat,
) -> (r: Seq<Seq<u8>>)
    requires
        fits(shape, s, texts),
        serves(s.last(), FrameV::Choice { options, alive, at: 0 }),
        forall|i: int| #[trigger] alive.contains(i) ==> 0 <= i < options.len(),
        choose_one(s, options, alive, b, fuel) is Some,
    ensures
        fits(shape, choose_one(s, options, alive, b, fuel)->0, r),
        flat(r) == flat(texts).push(b),
    decreases fuel, 1nat,
{
    let f = FrameV::Choice { options, alive, at: 0 };
    let none = Seq::<u8>::empty();
    assert forall|i: int| #[trigger] alive.contains(i) implies 0 <= i < options.len() && options[i].len() >= 0
        && options[i].take(0) == none by {
        assert(options[i].take(0) =~= none);
    }
    let q = lemma_added(shape, s, texts, f, none);
    assert(flat(texts) + none =~= flat(texts));
    lemma_step(shape, s.push(f), q, b, (fuel - 1) as nat)
}

/// A byte that begins a value.
#[verifier::rlimit(60)]
#[verifier::spinoff_prover]
proof fn lemma_begin(shape: Shape, s: Seq<FrameV>, texts: Seq<Seq<u8>>, want: Shape, b: u8, fuel: nat) -> (r: Seq<Seq<u8>>)
    requires
        fits(shape, s, texts),
        goal(s.last()) == Some(want),
        begin(s, want, b, fuel) is Some,
    ensures
        fits(shape, begin(s, want, b, fuel)->0, r),
        flat(r) == flat(texts).push(b),
    decreases fuel, 2nat,
{
    let one = seq![b];
    let none = Seq::<u8>::empty();
    assert(flat(texts) + one =~= flat(texts).push(b));
    assert(flat(texts) + none =~= flat(texts));
    assert(one.skip(1).len() == 0);
    let is_number_byte = b == MINUS || is_digit(b);
    if b == OPEN_BRACE && (want is Any || want is Object) {
        let props = match want {
            Shape::Object(p) => p,
            _ => Seq::empty(),
        };
        lemma_added(shape, s, texts, FrameV::Obj { props, next: 0, key: 0, phase: ObjPhase::KeyOrEnd }, one)
    } else if b == OPEN_BRACKET && (want is Any || want is Array) {
        let f = match want {
            Shape::Array { items, min, max } => FrameV::Arr {
                items: *items,
                count: 0,
                min: min as int,
                max: max as int,
                phase: ArrPhase::ValueOrEnd,
            },
            _ => FrameV::Arr { items: Shape::Any, count: 0, min: 0, max: u32::MAX as int, phase: ArrPhase::ValueOrEnd },
        };
        lemma_added(shape, s, texts, f, one)
    } else if b == QUOTE && (want is Any || want is Str) {
        lemma_opened(one, MAX_DEPTH - s.len() - 1);
        lemma_added(shape, s, texts, FrameV::Str { escape: false, hex: 0 }, one)
    } else if is_number_byte && (want is Any || want is Num) {
        let integer = match want {
            Shape::Num { integer } => integer,
            _ => false,
        };
        let f = FrameV::Num { state: Num::Lead, integer };
        let q = lemma_added(shape, s, texts, f, none);
        lemma_step(shape, s.push(f), q, b, (fuel - 1) as nat)
    } else {
        match want {
            Shape::Any => lemma_choice(shape, s, texts, words(), Set::new(|i: int| 0 <= i < 3), b, fuel),
            Shape::Bool => lemma_choice(shape, s, texts, words(), Set::new(|i: int| 0 <= i < 2), b, fuel),
            Shape::Null => lemma_choice(shape, s, texts, words(), Set::new(|i: int| i == 2), b, fuel),
            Shape::Enum(options) => lemma_choice(
                shape,
                s,
                texts,
                options,
                Set::new(|i: int| 0 <= i < options.len()),
                b,
                fuel,
            ),
            _ => texts,
        }
    }
}

/// Bytes leave a stack that has read them all.
proof fn lemma_fed(shape: Shape, bytes: Seq<u8>) -> (r: Seq<Seq<u8>>)
    requires
        fed_all(started(shape), bytes) is Some,
    ensures
        fits(shape, fed_all(started(shape), bytes)->0, r),
        flat(r) == bytes,
    decreases bytes.len(),
{
    if bytes.len() == 0 {
        let r = seq![Seq::<u8>::empty()];
        assert(r.drop_last() =~= Seq::empty());
        assert(flat(r.drop_last()) =~= Seq::empty());
        assert(flat(r) =~= bytes);
        r
    } else {
        let q = lemma_fed(shape, bytes.drop_last());
        let s = fed_all(started(shape), bytes.drop_last())->0;
        assert(bytes =~= bytes.drop_last().push(bytes.last()));
        lemma_step(shape, s, q, bytes.last(), MAX_HANDOVERS as nat)
    }
}

/// The end of the output closes what can be closed.
proof fn lemma_settle(shape: Shape, s: Seq<FrameV>, texts: Seq<Seq<u8>>) -> (r: Seq<Seq<u8>>)
    requires
        fits(shape, s, texts),
        settle(s) is Some,
    ensures
        fits(shape, settle(s)->0, r),
        flat(r) == flat(texts),
    decreases s.len(),
{
    let t = texts.last();
    let none = Seq::<u8>::empty();
    assert(frame_so_far(s[s.len() - 1], texts[s.len() - 1], MAX_DEPTH - s.len()));
    assert(t + none =~= t);
    assert(flat(texts) + none =~= flat(texts));
    match s.last() {
        FrameV::Num { state, integer } => {
            lemma_number_ends(t, state, integer);
            let q = lemma_popped(shape, s, texts, none, None);
            lemma_settle(shape, finish(s.drop_last(), None)->0, q)
        },
        FrameV::Choice { options, alive, at } => {
            lemma_settled(options, alive, at, 0);
            let i = settled_from(options, alive, at, 0)->0;
            assert(options[i].take(at) =~= options[i]);
            let q = lemma_popped(shape, s, texts, none, Some(i));
            lemma_settle(shape, finish(s.drop_last(), Some(i))->0, q)
        },
        _ => texts,
    }
}

/// Constrained output has the shape that was asked for: whatever bytes the automaton reads
/// to a complete document are a value of that shape, with nothing but whitespace around
/// it.
pub proof fn law_documents_conform(shape: Shape, bytes: Seq<u8>)
    requires
        fed_all(started(shape), bytes) matches Some(s) && is_complete(s),
    ensures
        is_padded(shape, bytes, MAX_DEPTH - 1),
{
    let s = fed_all(started(shape), bytes)->0;
    let q = lemma_fed(shape, bytes);
    let t = settle(s)->0;
    let r = lemma_settle(shape, s, q);
    let n = t.len() - 1;
    assert(frame_so_far(t[n], r[n], MAX_DEPTH - 1 - n));
    assert(n == 0);
    assert(r.drop_last() =~= Seq::empty());
    assert(flat(r.drop_last()) =~= Seq::empty());
    assert(flat(r) =~= r[0]);
}

} // verus!
