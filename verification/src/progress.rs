//! What constrained decoding leaves open: from wherever the automaton stands, some bytes
//! lead on to a complete document. Nothing that may be written is a dead end.

use vstd::prelude::*;
use crate::automaton::{
    begin, choose_one, fed_all, finish, is_complete, is_space, key_options, keys_from, law_split, lemma_settled,
    may_end, narrow, settle, settled_from, some_alive, started, step, structure, with_top, words, ArrPhase, FrameV, Num,
    ObjPhase, Property, Shape, CLOSE_BRACE, CLOSE_BRACKET, COLON, COMMA, MAX_DEPTH, MAX_HANDOVERS, OPEN_BRACE,
    OPEN_BRACKET, QUOTE, ZERO,
};

verus! {

/// A space.
pub const SPACE: u8 = 32;

/// Whether one byte string begins with another and has a space behind it.
pub open spec fn goes_on(a: Seq<u8>, b: Seq<u8>) -> bool {
    b.len() > a.len() && b.take(a.len() as int) == a && b[a.len() as int] == SPACE
}

/// Whether a space tells where each of the alternatives ends.
pub open spec fn tells_apart(options: Seq<Seq<u8>>) -> bool {
    forall|i: int, j: int|
        0 <= i < options.len() && 0 <= j < options.len() ==> !goes_on(#[trigger] options[i], #[trigger] options[j])
}

/// Whether there is a value to choose, and each can begin one.
pub open spec fn can_choose(options: Seq<Seq<u8>>) -> bool {
    &&& options.len() > 0
    &&& forall|i: int|
        0 <= i < options.len() ==> (#[trigger] options[i]).len() > 0 && !is_space(options[i][0]) && options[i][0]
            != CLOSE_BRACKET
    &&& tells_apart(options)
}

/// Whether a value of the given shape can be written with `room` levels to write it in,
/// whatever is begun inside it.
pub open spec fn can_fill(shape: Shape, room: int) -> bool
    decreases room, 0nat,
{
    if room < 1 {
        false
    } else {
        match shape {
            Shape::Enum(options) => can_choose(options),
            Shape::Object(props) => can_fill_object(props, room - 1),
            Shape::Array { items, min, max } => can_fill_array(*items, min as int, max as int, room - 1),
            _ => true,
        }
    }
}

/// Whether an object can be written with `room` levels inside it. With none it stays
/// empty.
pub open spec fn can_fill_object(props: Seq<Property>, room: int) -> bool
    decreases room, 1nat,
{
    &&& forall|i: int| 0 <= i < props.len() ==> (#[trigger] props[i]).key.len() > 0 && props[i].key[0] == QUOTE
    &&& tells_apart(key_options(props))
    &&& if room < 1 {
        may_end(props, 0)
    } else {
        forall|i: int| 0 <= i < props.len() ==> can_fill((#[trigger] props[i]).shape, room)
    }
}

/// Whether an array can be written with `room` levels inside it. With none it stays empty.
pub open spec fn can_fill_array(items: Shape, min: int, max: int, room: int) -> bool
    decreases room, 1nat,
{
    &&& min <= max
    &&& if room < 1 {
        min <= 0
    } else {
        max <= 0 || can_fill(items, room)
    }
}

// --------------------------------------------------------------------- stacks

/// Whether a frame waits for the one above it.
spec fn waits(f: FrameV) -> bool {
    match f {
        FrameV::Root { started, done, .. } => started && !done,
        FrameV::Obj { phase, .. } => phase is InKey || phase is InValue,
        FrameV::Arr { phase, .. } => phase is InValue,
        _ => false,
    }
}

/// Whether a frame can be brought to its end with `room` levels above it.
spec fn sound(f: FrameV, room: int) -> bool {
    match f {
        FrameV::Root { shape, started, done } => can_fill(shape, room) && (done ==> started),
        FrameV::Obj { props, next, key, phase } => {
            &&& can_fill_object(props, room)
            &&& 0 <= next && 0 <= key
            &&& if phase is KeyOrEnd {
                next == 0
            } else {
                room >= 1
            }
            &&& props.len() > 0 ==> {
                &&& next <= props.len()
                &&& phase is Key || phase is InKey ==> next < props.len()
                &&& phase is AfterKey || phase is BeforeValue || phase is InValue ==> next <= key < props.len()
            }
        },
        FrameV::Arr { items, count, min, max, phase } => {
            &&& can_fill_array(items, min, max, room)
            &&& 0 <= count
            &&& match phase {
                ArrPhase::ValueOrEnd => count == 0,
                ArrPhase::Value | ArrPhase::InValue => count < max && room >= 1,
                ArrPhase::CommaOrEnd => count <= max && room >= 1,
            }
        },
        FrameV::Str { hex, .. } => hex >= 0,
        FrameV::Num { .. } => true,
        FrameV::Choice { options, alive, at } => {
            &&& tells_apart(options)
            &&& some_alive(alive)
            &&& at >= 0
            &&& forall|i: int| #[trigger] alive.contains(i) ==> 0 <= i < options.len() && options[i].len() >= at
            &&& forall|i: int, j: int| #[trigger]
                alive.contains(i) && #[trigger] alive.contains(j) ==> options[i].take(at) == options[j].take(at)
        },
    }
}

/// Whether a frame reads what the one below it waits for, where that is a key.
spec fn belongs(parent: FrameV, child: FrameV) -> bool {
    match parent {
        FrameV::Obj { props, next, phase, .. } => phase is InKey ==> if props.len() == 0 {
            child is Str
        } else {
            child matches FrameV::Choice { options, alive, .. } && options == key_options(props) && (forall|i: int|
                #[trigger] alive.contains(i) ==> keys_from(props, next).contains(i))
        },
        _ => true,
    }
}

/// Whether a frame of a stack is what the one below it waits for.
spec fn linked(s: Seq<FrameV>, i: int) -> bool {
    waits(s[i - 1]) && belongs(s[i - 1], s[i])
}

/// Whether every frame of a stack can be brought to its end.
spec fn framed(s: Seq<FrameV>) -> bool {
    &&& 0 < s.len() <= MAX_DEPTH
    &&& s[0] is Root
    &&& forall|i: int| 0 < i < s.len() ==> !((#[trigger] s[i]) is Root)
    &&& forall|i: int| 0 <= i < s.len() ==> sound(#[trigger] s[i], MAX_DEPTH - 1 - i)
    &&& forall|i: int| 0 < i < s.len() ==> #[trigger] linked(s, i)
}

/// Whether a stack stands between two bytes.
spec fn live(s: Seq<FrameV>) -> bool {
    framed(s) && !waits(s.last())
}

/// Whether a stack waits for a value or a key.
spec fn ready(s: Seq<FrameV>) -> bool {
    framed(s) && waits(s.last())
}

proof fn lemma_top(s: Seq<FrameV>, f: FrameV)
    requires
        framed(s),
        sound(f, MAX_DEPTH - s.len()),
        f is Root <==> s.len() == 1,
        s.len() > 1 ==> belongs(s[s.len() - 2], f),
    ensures
        framed(with_top(s, f)),
{
    let t = with_top(s, f);
    let n = s.len() - 1;
    assert(t.len() == s.len());
    assert forall|i: int| 0 <= i < t.len() implies sound(#[trigger] t[i], MAX_DEPTH - 1 - i) by {
        if i < n {
            assert(t[i] == s[i]);
            assert(sound(s[i], MAX_DEPTH - 1 - i));
        }
    }
    assert forall|i: int| 0 < i < t.len() implies #[trigger] linked(t, i) by {
        assert(linked(s, i));
    }
    assert forall|i: int| 0 < i < t.len() implies !((#[trigger] t[i]) is Root) by {
        if i < n {
            assert(t[i] == s[i]);
        }
    }
}

proof fn lemma_push(s: Seq<FrameV>, f: FrameV)
    requires
        ready(s),
        s.len() < MAX_DEPTH,
        !(f is Root),
        sound(f, MAX_DEPTH - s.len() - 1),
        belongs(s.last(), f),
    ensures
        framed(s.push(f)),
{
    let t = s.push(f);
    assert forall|i: int| 0 <= i < t.len() implies sound(#[trigger] t[i], MAX_DEPTH - 1 - i) by {
        if i < s.len() {
            assert(sound(s[i], MAX_DEPTH - 1 - i));
        }
    }
    assert forall|i: int| 0 < i < t.len() implies #[trigger] linked(t, i) by {
        if i < s.len() {
            assert(linked(s, i));
        }
    }
}

proof fn lemma_pop(s: Seq<FrameV>)
    requires
        framed(s),
        s.len() > 1,
    ensures
        ready(s.drop_last()),
        belongs(s.drop_last().last(), s.last()),
        sound(s.last(), MAX_DEPTH - s.len()),
        sound(s.drop_last().last(), MAX_DEPTH - s.len() + 1),
{
    let t = s.drop_last();
    let n = s.len() - 1;
    assert(sound(s[n], MAX_DEPTH - 1 - n));
    assert(linked(s, n));
    assert(sound(s[n - 1], MAX_DEPTH - n));
    assert forall|i: int| 0 <= i < t.len() implies sound(#[trigger] t[i], MAX_DEPTH - 1 - i) by {
        assert(sound(s[i], MAX_DEPTH - 1 - i));
    }
    assert forall|i: int| 0 < i < t.len() implies #[trigger] linked(t, i) by {
        assert(linked(s, i));
    }
}

/// Whether a frame can take what was matched: a key that may come.
spec fn takes(f: FrameV, matched: Option<int>) -> bool {
    match f {
        FrameV::Obj { props, next, phase, .. } => phase is InKey ==> if props.len() == 0 {
            matched is None
        } else {
            matched matches Some(i) && keys_from(props, next).contains(i)
        },
        _ => true,
    }
}

/// A frame that is given what it waits for stands between two bytes again.
proof fn lemma_finish(s: Seq<FrameV>, matched: Option<int>)
    requires
        ready(s),
        s.len() < MAX_DEPTH,
        takes(s.last(), matched),
    ensures
        finish(s, matched) matches Some(t) && live(t) && t.len() == s.len() && t.drop_last() == s.drop_last(),
{
    let n = s.len() - 1;
    let t = finish(s, matched)->0;
    assert(sound(s[n], MAX_DEPTH - 1 - n));
    if n > 0 {
        assert(linked(s, n));
    }
    assert(t =~= with_top(s, t.last()));
    lemma_top(s, t.last());
    assert(t.drop_last() =~= s.drop_last());
}

// ---------------------------------------------------------------------- bytes

/// Alternatives that agree so far still agree when one byte more is read.
proof fn lemma_narrowed(options: Seq<Seq<u8>>, alive: Set<int>, at: int, b: u8)
    requires
        sound(FrameV::Choice { options, alive, at }, 0),
        some_alive(narrow(options, alive, at, b)),
    ensures
        sound(FrameV::Choice { options, alive: narrow(options, alive, at, b), at: at + 1 }, 0),
{
    let narrowed = narrow(options, alive, at, b);
    assert forall|i: int, j: int| #[trigger] narrowed.contains(i) && #[trigger] narrowed.contains(j) implies options[i].take(
        at + 1,
    ) == options[j].take(at + 1) by {
        assert(alive.contains(i) && alive.contains(j));
        assert(options[i].take(at + 1) =~= options[i].take(at).push(b));
        assert(options[j].take(at + 1) =~= options[j].take(at).push(b));
    }
}

/// A byte that can follow leaves a stack that can be brought to its end.
#[verifier::rlimit(60)]
#[verifier::spinoff_prover]
proof fn lemma_step(s: Seq<FrameV>, b: u8, fuel: nat)
    requires
        live(s),
    ensures
        step(s, b, fuel) matches Some(t) ==> live(t),
    decreases fuel, 5nat,
{
    let n = s.len() - 1;
    assert(sound(s[n], MAX_DEPTH - 1 - n));
    if n > 0 {
        lemma_pop(s);
    }
    match s.last() {
        FrameV::Str { escape, hex } => {
            if step(s, b, fuel) is Some {
                if hex <= 0 && !escape && b == QUOTE {
                    lemma_finish(s.drop_last(), None);
                } else {
                    let t = step(s, b, fuel)->0;
                    assert(t =~= with_top(s, t.last()));
                    lemma_top(s, t.last());
                }
            }
        },
        FrameV::Num { state, integer } => match state.after(b, integer) {
            Some(x) => lemma_top(s, FrameV::Num { state: x, integer }),
            None => {
                lemma_finish(s.drop_last(), None);
                if fuel > 0 {
                    lemma_step(finish(s.drop_last(), None)->0, b, (fuel - 1) as nat);
                }
            },
        },
        FrameV::Choice { options, alive, at } => {
            let narrowed = narrow(options, alive, at, b);
            if some_alive(narrowed) {
                lemma_narrowed(options, alive, at, b);
                lemma_top(s, FrameV::Choice { options, alive: narrowed, at: at + 1 });
            } else {
                lemma_settled(options, alive, at, 0);
                if let Some(i) = settled_from(options, alive, at, 0) {
                    lemma_finish(s.drop_last(), Some(i));
                    if fuel > 0 {
                        lemma_step(finish(s.drop_last(), Some(i))->0, b, (fuel - 1) as nat);
                    }
                }
            }
        },
        _ => lemma_structure(s, b, fuel),
    }
}

#[verifier::rlimit(60)]
#[verifier::spinoff_prover]
proof fn lemma_structure(s: Seq<FrameV>, b: u8, fuel: nat)
    requires
        live(s),
    ensures
        structure(s, b, fuel) matches Some(t) ==> live(t),
    decreases fuel, 4nat,
{
    let n = s.len() - 1;
    assert(sound(s[n], MAX_DEPTH - 1 - n));
    if n > 0 {
        lemma_pop(s);
    }
    match s.last() {
        FrameV::Root { shape, started, done } => {
            let f = FrameV::Root { shape, started: true, done: false };
            lemma_top(s, f);
            lemma_begin(with_top(s, f), shape, b, fuel);
        },
        FrameV::Obj { props, next, key, phase } => match phase {
            ObjPhase::KeyOrEnd | ObjPhase::Key => {
                if b == QUOTE && s.len() < MAX_DEPTH && (props.len() == 0 || some_alive(keys_from(props, next))) {
                    let f = FrameV::Obj { props, next, key, phase: ObjPhase::InKey };
                    lemma_top(s, f);
                    if props.len() == 0 {
                        lemma_push(with_top(s, f), FrameV::Str { escape: false, hex: 0 });
                    } else {
                        lemma_choice(with_top(s, f), key_options(props), keys_from(props, next), b, fuel);
                    }
                } else if b == CLOSE_BRACE {
                    lemma_finish(s.drop_last(), None);
                }
            },
            ObjPhase::AfterKey => lemma_top(s, FrameV::Obj { props, next, key, phase: ObjPhase::BeforeValue }),
            ObjPhase::BeforeValue => {
                let f = FrameV::Obj { props, next, key, phase: ObjPhase::InValue };
                lemma_top(s, f);
                lemma_begin(with_top(s, f), wanted(props, key), b, fuel);
            },
            ObjPhase::CommaOrEnd => {
                if b == COMMA && (props.len() == 0 || some_alive(keys_from(props, next))) {
                    lemma_top(s, FrameV::Obj { props, next, key, phase: ObjPhase::Key });
                } else {
                    lemma_finish(s.drop_last(), None);
                }
            },
            _ => {},
        },
        FrameV::Arr { items, count, min, max, phase } => {
            if b == CLOSE_BRACKET && count >= min && !(phase is Value) {
                lemma_finish(s.drop_last(), None);
            } else if phase is CommaOrEnd {
                if count < max {
                    lemma_top(s, FrameV::Arr { items, count, min, max, phase: ArrPhase::Value });
                }
            } else if count < max {
                let f = FrameV::Arr { items, count, min, max, phase: ArrPhase::InValue };
                if s.len() < MAX_DEPTH {
                    lemma_top(s, f);
                    lemma_begin(with_top(s, f), items, b, fuel);
                } else {
                    lemma_no_room(with_top(s, f), items, b, fuel);
                }
            }
        },
        _ => {},
    }
}

/// The shape of a property's value; where none is declared, any.
pub open spec fn wanted(props: Seq<Property>, key: int) -> Shape {
    if 0 <= key < props.len() {
        props[key].shape
    } else {
        Shape::Any
    }
}

/// Nothing begins where there is no room.
proof fn lemma_no_room(s: Seq<FrameV>, shape: Shape, b: u8, fuel: nat)
    requires
        s.len() >= MAX_DEPTH,
    ensures
        begin(s, shape, b, fuel) is None,
{
}

/// A byte that begins one of a fixed set of byte strings.
proof fn lemma_choice(s: Seq<FrameV>, options: Seq<Seq<u8>>, alive: Set<int>, b: u8, fuel: nat)
    requires
        ready(s),
        tells_apart(options),
        forall|i: int| #[trigger] alive.contains(i) ==> 0 <= i < options.len(),
        belongs(s.last(), FrameV::Choice { options, alive, at: 0 }),
    ensures
        choose_one(s, options, alive, b, fuel) matches Some(t) ==> live(t),
    decreases fuel, 2nat,
{
    if some_alive(alive) && s.len() < MAX_DEPTH && fuel > 0 {
        let f = FrameV::Choice { options, alive, at: 0 };
        assert forall|i: int, j: int| #[trigger] alive.contains(i) && #[trigger] alive.contains(j) implies options[i].take(0)
            == options[j].take(0) by {
            assert(options[i].take(0) =~= options[j].take(0));
        }
        lemma_push(s, f);
        lemma_step(s.push(f), b, (fuel - 1) as nat);
    }
}

proof fn lemma_words()
    ensures
        tells_apart(words()),
        words().len() == 3,
{
    assert forall|i: int, j: int| 0 <= i < 3 && 0 <= j < 3 implies !goes_on(#[trigger] words()[i], #[trigger] words()[j]) by {
        let w = words()[j];
        assert(j == 0 || j == 1 || j == 2);
        assert forall|k: int| 0 <= k < w.len() implies w[k] != SPACE by {}
    }
}

/// A byte that begins a value.
#[verifier::rlimit(60)]
#[verifier::spinoff_prover]
proof fn lemma_begin(s: Seq<FrameV>, shape: Shape, b: u8, fuel: nat)
    requires
        ready(s),
        s.len() < MAX_DEPTH ==> can_fill(shape, MAX_DEPTH - s.len()),
        !(s.last() matches FrameV::Obj { phase, .. } && phase is InKey),
    ensures
        begin(s, shape, b, fuel) matches Some(t) ==> live(t),
    decreases fuel, 3nat,
{
    if s.len() >= MAX_DEPTH {
        lemma_no_room(s, shape, b, fuel);
    } else if b == OPEN_BRACE && (shape is Any || shape is Object) {
        let props = match shape {
            Shape::Object(p) => p,
            _ => Seq::empty(),
        };
        lemma_push(s, FrameV::Obj { props, next: 0, key: 0, phase: ObjPhase::KeyOrEnd });
    } else if b == OPEN_BRACKET && (shape is Any || shape is Array) {
        let f = match shape {
            Shape::Array { items, min, max } => FrameV::Arr {
                items: *items,
                count: 0,
                min: min as int,
                max: max as int,
                phase: ArrPhase::ValueOrEnd,
            },
            _ => FrameV::Arr { items: Shape::Any, count: 0, min: 0, max: u32::MAX as int, phase: ArrPhase::ValueOrEnd },
        };
        lemma_push(s, f);
    } else if b == QUOTE && (shape is Any || shape is Str) {
        lemma_push(s, FrameV::Str { escape: false, hex: 0 });
    } else {
        lemma_words();
        match shape {
            Shape::Any | Shape::Num { .. } => {
                let integer = match shape {
                    Shape::Num { integer } => integer,
                    _ => false,
                };
                let f = FrameV::Num { state: Num::Lead, integer };
                lemma_push(s, f);
                if fuel > 0 {
                    lemma_step(s.push(f), b, (fuel - 1) as nat);
                }
                if shape is Any {
                    lemma_choice(s, words(), Set::new(|i: int| 0 <= i < 3), b, fuel);
                }
            },
            Shape::Bool => lemma_choice(s, words(), Set::new(|i: int| 0 <= i < 2), b, fuel),
            Shape::Null => lemma_choice(s, words(), Set::new(|i: int| i == 2), b, fuel),
            Shape::Enum(options) => lemma_choice(s, options, Set::new(|i: int| 0 <= i < options.len()), b, fuel),
            _ => {},
        }
    }
}

// ----------------------------------------------------------------------- ways

/// Whether some bytes lead from one stack to another.
pub open spec fn reaches(s: Seq<FrameV>, t: Seq<FrameV>) -> bool {
    exists|v: Seq<u8>| #[trigger] fed_all(Some(s), v) == Some(t)
}

proof fn lemma_stays(s: Seq<FrameV>)
    ensures
        reaches(s, s),
{
    assert(fed_all(Some(s), Seq::<u8>::empty()) == Some(s));
}

proof fn lemma_by(s: Seq<FrameV>, b: u8, t: Seq<FrameV>)
    requires
        step(s, b, MAX_HANDOVERS as nat) == Some(t),
    ensures
        reaches(s, t),
        live(s) ==> live(t),
{
    let v = seq![b];
    assert(v.drop_last() =~= Seq::<u8>::empty());
    assert(fed_all(Some(s), v.drop_last()) == Some(s));
    assert(fed_all(Some(s), v) == Some(t));
    if live(s) {
        lemma_step(s, b, MAX_HANDOVERS as nat);
    }
}

proof fn lemma_then(s: Seq<FrameV>, t: Seq<FrameV>, u: Seq<FrameV>)
    requires
        reaches(s, t),
        reaches(t, u),
    ensures
        reaches(s, u),
{
    let v = choose|v: Seq<u8>| #[trigger] fed_all(Some(s), v) == Some(t);
    let w = choose|w: Seq<u8>| #[trigger] fed_all(Some(t), w) == Some(u);
    law_split(Some(s), v, w);
    assert(fed_all(Some(s), v + w) == Some(u));
}

/// The stack in which a frame has been closed.
spec fn popped(s: Seq<FrameV>, matched: Option<int>) -> Seq<FrameV> {
    finish(s.drop_last(), matched)->0
}

/// A stack that stands between scalars takes a space and stays as it is.
pub(crate) proof fn lemma_spaced(s: Seq<FrameV>, fuel: nat)
    requires
        s.len() > 0,
        s.last() is Root || s.last() is Obj || s.last() is Arr,
        fuel > 0,
    ensures
        step(s, SPACE, fuel) == Some(s),
{
}

/// Any other byte is read by the frame itself.
pub(crate) proof fn lemma_between(s: Seq<FrameV>, b: u8)
    requires
        s.len() > 0,
        s.last() is Root || s.last() is Obj || s.last() is Arr,
        !is_space(b),
    ensures
        step(s, b, MAX_HANDOVERS as nat) == structure(s, b, MAX_HANDOVERS as nat),
{
}

/// A string can be closed.
proof fn lemma_string_ends(s: Seq<FrameV>, escape: bool, hex: int)
    requires
        live(s),
        s.last() == (FrameV::Str { escape, hex }),
    ensures
        reaches(s, popped(s, None)),
        live(popped(s, None)),
    decreases
            hex + (if escape {
                1int
            } else {
                0
            }),
{
    let n = s.len() - 1;
    assert(sound(s[n], MAX_DEPTH - 1 - n));
    assert(n > 0);
    lemma_pop(s);
    lemma_finish(s.drop_last(), None);
    if hex > 0 {
        let t = with_top(s, FrameV::Str { escape: false, hex: hex - 1 });
        lemma_by(s, ZERO, t);
        assert(t.drop_last() =~= s.drop_last());
        lemma_string_ends(t, false, hex - 1);
        lemma_then(s, t, popped(s, None));
    } else if escape {
        let t = with_top(s, FrameV::Str { escape: false, hex: 0 });
        lemma_by(s, QUOTE, t);
        assert(t.drop_last() =~= s.drop_last());
        lemma_string_ends(t, false, 0);
        lemma_then(s, t, popped(s, None));
    } else {
        lemma_by(s, QUOTE, popped(s, None));
    }
}

/// A number can be ended.
proof fn lemma_number_ends(s: Seq<FrameV>, state: Num, integer: bool)
    requires
        live(s),
        s.last() == (FrameV::Num { state, integer }),
    ensures
        reaches(s, popped(s, None)),
        live(popped(s, None)),
    decreases
            if state.ends() {
                0int
            } else {
                1
            },
{
    let n = s.len() - 1;
    assert(n > 0);
    lemma_pop(s);
    lemma_finish(s.drop_last(), None);
    if state.ends() {
        assert(state.after(SPACE, integer) is None);
        let t = popped(s, None);
        lemma_spaced(t, (MAX_HANDOVERS - 1) as nat);
        lemma_by(s, SPACE, t);
    } else {
        let x = state.after(ZERO, integer)->0;
        assert(x.ends());
        let t = with_top(s, FrameV::Num { state: x, integer });
        lemma_by(s, ZERO, t);
        assert(t.drop_last() =~= s.drop_last());
        lemma_number_ends(t, x, integer);
        lemma_then(s, t, popped(s, None));
    }
}

/// A choice can be settled, on one of the alternatives that are left.
proof fn lemma_choice_ends(s: Seq<FrameV>, options: Seq<Seq<u8>>, alive: Set<int>, at: int, i: int) -> (k: int)
    requires
        live(s),
        s.last() == (FrameV::Choice { options, alive, at }),
        alive.contains(i),
    ensures
        alive.contains(k),
        reaches(s, popped(s, Some(k))),
        live(popped(s, Some(k))),
        finish(s.drop_last(), Some(k)) is Some,
    decreases options[i].len() - at,
{
    let n = s.len() - 1;
    assert(sound(s[n], MAX_DEPTH - 1 - n));
    assert(n > 0);
    lemma_pop(s);
    if options[i].len() == at {
        let narrowed = narrow(options, alive, at, SPACE);
        assert forall|j: int| !narrowed.contains(j) by {
            if narrowed.contains(j) {
                assert(alive.contains(j));
                assert(options[i].take(at) =~= options[i]);
                assert(options[j].take(at) == options[i].take(at));
                assert(goes_on(options[i], options[j]));
            }
        }
        lemma_settled(options, alive, at, 0);
        let k = settled_from(options, alive, at, 0)->0;
        lemma_finish(s.drop_last(), Some(k));
        let t = popped(s, Some(k));
        lemma_spaced(t, (MAX_HANDOVERS - 1) as nat);
        lemma_by(s, SPACE, t);
        k
    } else {
        let b = options[i][at];
        let narrowed = narrow(options, alive, at, b);
        assert(narrowed.contains(i));
        let t = with_top(s, FrameV::Choice { options, alive: narrowed, at: at + 1 });
        lemma_by(s, b, t);
        assert(t.drop_last() =~= s.drop_last());
        let k = lemma_choice_ends(t, options, narrowed, at + 1, i);
        assert(alive.contains(k));
        lemma_then(s, t, popped(s, Some(k)));
        k
    }
}

// --------------------------------------------------------------------- values

/// The shape of the value that may begin.
pub open spec fn next_shape(f: FrameV) -> Option<Shape> {
    match f {
        FrameV::Root { shape, started, .. } => if started {
            None
        } else {
            Some(shape)
        },
        FrameV::Obj { props, key, phase, .. } => if phase is BeforeValue {
            Some(wanted(props, key))
        } else {
            None
        },
        FrameV::Arr { items, count, max, phase, .. } => if (phase is ValueOrEnd || phase is Value) && count < max {
            Some(items)
        } else {
            None
        },
        _ => None,
    }
}

/// The frame as it waits for a value that has begun.
pub open spec fn waiting(f: FrameV) -> FrameV {
    match f {
        FrameV::Root { shape, .. } => FrameV::Root { shape, started: true, done: false },
        FrameV::Obj { props, next, key, .. } => FrameV::Obj { props, next, key, phase: ObjPhase::InValue },
        FrameV::Arr { items, count, min, max, .. } => FrameV::Arr { items, count, min, max, phase: ArrPhase::InValue },
        _ => f,
    }
}

/// The stack as it waits for a value that has begun.
pub open spec fn entered(s: Seq<FrameV>) -> Seq<FrameV> {
    with_top(s, waiting(s.last()))
}

/// The stack in which a value has been written.
spec fn filled(s: Seq<FrameV>) -> Seq<FrameV> {
    finish(entered(s), None)->0
}

/// A byte that begins a value goes to the value.
proof fn lemma_enters(s: Seq<FrameV>, shape: Shape, b: u8)
    requires
        live(s),
        s.len() < MAX_DEPTH,
        next_shape(s.last()) == Some(shape),
        !is_space(b),
        b != CLOSE_BRACKET,
    ensures
        ready(entered(s)),
        entered(s).len() == s.len(),
        step(s, b, MAX_HANDOVERS as nat) == begin(entered(s), shape, b, MAX_HANDOVERS as nat),
        forall|m: Option<int>| #[trigger] finish(entered(s), m) == Some(filled(s)),
        live(filled(s)),
        filled(s).len() == s.len(),
        filled(s).drop_last() == s.drop_last(),
{
    let n = s.len() - 1;
    assert(sound(s[n], MAX_DEPTH - 1 - n));
    if n > 0 {
        assert(linked(s, n));
    }
    lemma_between(s, b);
    lemma_top(s, waiting(s.last()));
    lemma_finish(entered(s), None);
    assert(entered(s).drop_last() =~= s.drop_last());
}

/// A value that is one of a fixed set can be written.
proof fn lemma_chosen(s: Seq<FrameV>, shape: Shape, options: Seq<Seq<u8>>, alive: Set<int>, i: int)
    requires
        live(s),
        s.len() < MAX_DEPTH,
        next_shape(s.last()) == Some(shape),
        can_choose(options),
        forall|j: int| #[trigger] alive.contains(j) ==> 0 <= j < options.len(),
        alive.contains(i),
        forall|b: u8| begin(entered(s), shape, b, MAX_HANDOVERS as nat) == #[trigger] choose_one(
            entered(s),
            options,
            alive,
            b,
            MAX_HANDOVERS as nat,
        ),
    ensures
        reaches(s, filled(s)),
        live(filled(s)),
{
    let b = options[i][0];
    let e = entered(s);
    lemma_enters(s, shape, b);
    let narrowed = narrow(options, alive, 0, b);
    assert(narrowed.contains(i));
    let f = FrameV::Choice { options, alive, at: 0 };
    let g = FrameV::Choice { options, alive: narrowed, at: 1 };
    let t = e.push(g);
    assert(with_top(e.push(f), g) =~= t);
    assert(choose_one(e, options, alive, b, MAX_HANDOVERS as nat) == Some(t));
    lemma_by(s, b, t);
    let k = lemma_choice_ends(t, options, narrowed, 1, i);
    assert(t.drop_last() =~= e);
    assert(finish(e, Some(k)) == Some(filled(s)));
    lemma_then(s, t, filled(s));
}

/// A value of a shape can be written where there is room for it.
#[verifier::rlimit(60)]
#[verifier::spinoff_prover]
proof fn lemma_fill(s: Seq<FrameV>, shape: Shape, room: int)
    requires
        live(s),
        room == MAX_DEPTH - s.len(),
        next_shape(s.last()) == Some(shape),
        can_fill(shape, room),
    ensures
        reaches(s, filled(s)),
        live(filled(s)),
    decreases room, 0int, 0int,
{
    let e = entered(s);
    match shape {
        Shape::Any | Shape::Str => {
            lemma_enters(s, shape, QUOTE);
            let t = e.push(FrameV::Str { escape: false, hex: 0 });
            lemma_by(s, QUOTE, t);
            lemma_string_ends(t, false, 0);
            assert(t.drop_last() =~= e);
            lemma_then(s, t, filled(s));
        },
        Shape::Num { integer } => {
            lemma_enters(s, shape, ZERO);
            let f = FrameV::Num { state: Num::Lead, integer };
            let g = FrameV::Num { state: Num::Zero, integer };
            let t = e.push(g);
            assert(with_top(e.push(f), g) =~= t);
            assert(Num::Lead.after(ZERO, integer) == Some(Num::Zero));
            assert(step(e.push(f), ZERO, (MAX_HANDOVERS - 1) as nat) == Some(t));
            lemma_by(s, ZERO, t);
            lemma_number_ends(t, Num::Zero, integer);
            assert(t.drop_last() =~= e);
            lemma_then(s, t, filled(s));
        },
        Shape::Bool => {
            lemma_words();
            lemma_chosen(s, shape, words(), Set::new(|i: int| 0 <= i < 2), 0);
        },
        Shape::Null => {
            lemma_words();
            lemma_chosen(s, shape, words(), Set::new(|i: int| i == 2), 2);
        },
        Shape::Enum(options) => lemma_chosen(s, shape, options, Set::new(|i: int| 0 <= i < options.len()), 0),
        Shape::Object(props) => {
            lemma_enters(s, shape, OPEN_BRACE);
            let t = e.push(FrameV::Obj { props, next: 0, key: 0, phase: ObjPhase::KeyOrEnd });
            lemma_by(s, OPEN_BRACE, t);
            lemma_object(t, props, 0, room - 1);
            assert(t.drop_last() =~= e);
            lemma_then(s, t, filled(s));
        },
        Shape::Array { items, min, max } => {
            lemma_enters(s, shape, OPEN_BRACKET);
            let f = FrameV::Arr { items: *items, count: 0, min: min as int, max: max as int, phase: ArrPhase::ValueOrEnd };
            let t = e.push(f);
            lemma_by(s, OPEN_BRACKET, t);
            lemma_array(t, *items, 0, min as int, max as int, room - 1);
            assert(t.drop_last() =~= e);
            lemma_then(s, t, filled(s));
        },
    }
}

/// A property can be written, from its colon on.
proof fn lemma_rest_of_member(s: Seq<FrameV>, props: Seq<Property>, next: int, key: int, room: int) -> (t: Seq<FrameV>)
    requires
        live(s),
        room == MAX_DEPTH - s.len(),
        s.last() == (FrameV::Obj { props, next, key, phase: ObjPhase::AfterKey }) || s.last() == (FrameV::Obj {
            props,
            next,
            key,
            phase: ObjPhase::BeforeValue,
        }),
    ensures
        reaches(s, t),
        live(t),
        t.len() == s.len(),
        t.drop_last() == s.drop_last(),
        t.last() == (FrameV::Obj { props, next: key + 1, key, phase: ObjPhase::CommaOrEnd }),
    decreases room, 1int, 0int,
{
    let n = s.len() - 1;
    assert(sound(s[n], MAX_DEPTH - 1 - n));
    let f = FrameV::Obj { props, next, key, phase: ObjPhase::BeforeValue };
    let u = with_top(s, f);
    if s.last() == f {
        assert(u =~= s);
        lemma_stays(s);
    } else {
        lemma_between(s, COLON);
        lemma_by(s, COLON, u);
    }
    assert(u.drop_last() =~= s.drop_last());
    assert(can_fill(wanted(props, key), room));
    lemma_fill(u, wanted(props, key), room);
    lemma_enters(u, wanted(props, key), QUOTE);
    lemma_then(s, u, filled(u));
    filled(u)
}

/// A property can be written.
#[verifier::rlimit(60)]
#[verifier::spinoff_prover]
proof fn lemma_member(s: Seq<FrameV>, props: Seq<Property>, next: int, room: int) -> (t: Seq<FrameV>)
    requires
        live(s),
        room == MAX_DEPTH - s.len(),
        room >= 1,
        s.last() matches FrameV::Obj { props: p, next: x, phase, .. } && p == props && x == next && (phase is Key || phase
            is KeyOrEnd),
        props.len() == 0 || 0 <= next < props.len(),
    ensures
        reaches(s, t),
        live(t),
        t.len() == s.len(),
        t.drop_last() == s.drop_last(),
        t.last() matches FrameV::Obj { props: p, next: x, phase, .. } && p == props && phase is CommaOrEnd && (props.len() == 0
            || x > next),
    decreases room, 2int, 0int,
{
    let n = s.len() - 1;
    assert(sound(s[n], MAX_DEPTH - 1 - n));
    assert(n > 0);
    let old_key = s.last()->Obj_key;
    let w = with_top(s, FrameV::Obj { props, next, key: old_key, phase: ObjPhase::InKey });
    assert(w.drop_last() =~= s.drop_last());
    if props.len() == 0 {
        let u = w.push(FrameV::Str { escape: false, hex: 0 });
        lemma_between(s, QUOTE);
        lemma_by(s, QUOTE, u);
        lemma_string_ends(u, false, 0);
        assert(u.drop_last() =~= w);
        let v = popped(u, None);
        lemma_then(s, u, v);
        assert(v.drop_last() =~= w.drop_last());
        let t = lemma_rest_of_member(v, props, next, 0, room);
        lemma_then(s, v, t);
        t
    } else {
        let options = key_options(props);
        let alive = keys_from(props, next);
        assert(alive.contains(next));
        let narrowed = narrow(options, alive, 0, QUOTE);
        assert(options[next] == props[next].key);
        assert(narrowed.contains(next));
        let f = FrameV::Choice { options, alive, at: 0 };
        let g = FrameV::Choice { options, alive: narrowed, at: 1 };
        let u = w.push(g);
        assert(with_top(w.push(f), g) =~= u);
        assert(step(w.push(f), QUOTE, (MAX_HANDOVERS - 1) as nat) == Some(u));
        assert(choose_one(w, options, alive, QUOTE, MAX_HANDOVERS as nat) == Some(u));
        lemma_between(s, QUOTE);
        lemma_by(s, QUOTE, u);
        let k = lemma_choice_ends(u, options, narrowed, 1, next);
        assert(u.drop_last() =~= w);
        let v = popped(u, Some(k));
        lemma_then(s, u, v);
        assert(v.drop_last() =~= w.drop_last());
        assert(alive.contains(k));
        let t = lemma_rest_of_member(v, props, next, k, room);
        lemma_then(s, v, t);
        t
    }
}

/// An object can be closed, once what it requires is written.
proof fn lemma_object(s: Seq<FrameV>, props: Seq<Property>, next: int, room: int)
    requires
        live(s),
        room == MAX_DEPTH - s.len(),
        s.last() matches FrameV::Obj { props: p, next: x, phase, .. } && p == props && x == next && (phase is KeyOrEnd
            || phase is CommaOrEnd),
    ensures
        reaches(s, popped(s, None)),
        live(popped(s, None)),
    decreases
            room,
            3int,
            if next < props.len() {
                props.len() - next
            } else {
                0
            },
{
    let n = s.len() - 1;
    assert(sound(s[n], MAX_DEPTH - 1 - n));
    assert(n > 0);
    lemma_pop(s);
    lemma_finish(s.drop_last(), None);
    if may_end(props, next) {
        lemma_between(s, CLOSE_BRACE);
        lemma_by(s, CLOSE_BRACE, popped(s, None));
    } else {
        assert(next < props.len());
        let key = s.last()->Obj_key;
        let u = if s.last()->Obj_phase is CommaOrEnd {
            with_top(s, FrameV::Obj { props, next, key, phase: ObjPhase::Key })
        } else {
            s
        };
        if s.last()->Obj_phase is CommaOrEnd {
            assert(keys_from(props, next).contains(next));
            lemma_between(s, COMMA);
            lemma_by(s, COMMA, u);
        } else {
            lemma_stays(s);
        }
        assert(u.drop_last() =~= s.drop_last());
        let t = lemma_member(u, props, next, room);
        lemma_then(s, u, t);
        let after = t.last()->Obj_next;
        assert(after > next);
        lemma_object(t, props, after, room);
        lemma_then(s, t, popped(s, None));
    }
}

/// An array can be closed, once it is long enough.
proof fn lemma_array(s: Seq<FrameV>, items: Shape, count: int, min: int, max: int, room: int)
    requires
        live(s),
        room == MAX_DEPTH - s.len(),
        s.last() == (FrameV::Arr { items, count, min, max, phase: ArrPhase::ValueOrEnd }) || s.last() == (FrameV::Arr {
            items,
            count,
            min,
            max,
            phase: ArrPhase::CommaOrEnd,
        }),
    ensures
        reaches(s, popped(s, None)),
        live(popped(s, None)),
    decreases
            room,
            3int,
            if count < min {
                min - count
            } else {
                0
            },
{
    let n = s.len() - 1;
    assert(sound(s[n], MAX_DEPTH - 1 - n));
    assert(n > 0);
    lemma_pop(s);
    lemma_finish(s.drop_last(), None);
    if count >= min {
        lemma_between(s, CLOSE_BRACKET);
        lemma_by(s, CLOSE_BRACKET, popped(s, None));
    } else {
        let u = if s.last()->Arr_phase is CommaOrEnd {
            with_top(s, FrameV::Arr { items, count, min, max, phase: ArrPhase::Value })
        } else {
            s
        };
        if s.last()->Arr_phase is CommaOrEnd {
            lemma_between(s, COMMA);
            lemma_by(s, COMMA, u);
        } else {
            lemma_stays(s);
        }
        assert(u.drop_last() =~= s.drop_last());
        lemma_fill(u, items, room);
        lemma_enters(u, items, QUOTE);
        let t = filled(u);
        lemma_then(s, u, t);
        lemma_array(t, items, count + 1, min, max, room);
        lemma_then(s, t, popped(s, None));
    }
}

/// From wherever a stack stands, some bytes lead on to a complete document.
proof fn lemma_completes(s: Seq<FrameV>) -> (t: Seq<FrameV>)
    requires
        live(s),
    ensures
        reaches(s, t),
        is_complete(t),
    decreases s.len(),
{
    let n = s.len() - 1;
    assert(sound(s[n], MAX_DEPTH - 1 - n));
    let room = MAX_DEPTH - s.len();
    if n == 0 {
        let shape = s.last()->Root_shape;
        if s.last()->Root_done {
            assert(settle(s) == Some(s));
            lemma_stays(s);
            s
        } else {
            lemma_fill(s, shape, room);
            let t = filled(s);
            assert(settle(t) == Some(t));
            t
        }
    } else {
        let u = lemma_closes(s);
        let t = lemma_completes(u);
        lemma_then(s, u, t);
        t
    }
}

/// The frame on top of others can be closed.
#[verifier::rlimit(60)]
#[verifier::spinoff_prover]
proof fn lemma_closes(s: Seq<FrameV>) -> (t: Seq<FrameV>)
    requires
        live(s),
        s.len() > 1,
    ensures
        reaches(s, t),
        live(t),
        t.len() == s.len() - 1,
{
    let n = s.len() - 1;
    assert(sound(s[n], MAX_DEPTH - 1 - n));
    let room = MAX_DEPTH - s.len();
    lemma_pop(s);
    match s.last() {
        FrameV::Str { escape, hex } => {
            lemma_string_ends(s, escape, hex);
            lemma_finish(s.drop_last(), None);
            popped(s, None)
        },
        FrameV::Num { state, integer } => {
            lemma_number_ends(s, state, integer);
            lemma_finish(s.drop_last(), None);
            popped(s, None)
        },
        FrameV::Choice { options, alive, at } => {
            let i = choose|i: int| #[trigger] alive.contains(i);
            let k = lemma_choice_ends(s, options, alive, at, i);
            lemma_finish(s.drop_last(), Some(k));
            popped(s, Some(k))
        },
        FrameV::Obj { props, next, key, phase } => {
            lemma_finish(s.drop_last(), None);
            let u = if phase is Key {
                lemma_member(s, props, next, room)
            } else if phase is AfterKey || phase is BeforeValue {
                lemma_rest_of_member(s, props, next, key, room)
            } else {
                lemma_stays(s);
                s
            };
            lemma_object(u, props, u.last()->Obj_next, room);
            lemma_then(s, u, popped(s, None));
            popped(s, None)
        },
        FrameV::Arr { items, count, min, max, phase } => {
            lemma_finish(s.drop_last(), None);
            if phase is Value {
                lemma_fill(s, items, room);
                lemma_enters(s, items, QUOTE);
                let u = filled(s);
                lemma_array(u, items, count + 1, min, max, room);
                lemma_then(s, u, popped(s, None));
            } else {
                lemma_array(s, items, count, min, max, room);
            }
            popped(s, None)
        },
        _ => s,
    }
}

/// Whether some bytes complete a document that begins with the given ones.
pub open spec fn can_be_completed(shape: Shape, bytes: Seq<u8>) -> bool {
    exists|more: Seq<u8>| (#[trigger] fed_all(started(shape), bytes + more) matches Some(t) && is_complete(t))
}

/// Nothing that may be written is a dead end: where a shape can be filled at all, whatever
/// bytes the automaton has let through can be continued to a complete document.
pub proof fn law_no_dead_end(shape: Shape, bytes: Seq<u8>)
    requires
        can_fill(shape, MAX_DEPTH - 1),
        fed_all(started(shape), bytes) is Some,
    ensures
        can_be_completed(shape, bytes),
{
    let s = fed_all(started(shape), bytes)->0;
    lemma_fed(shape, bytes);
    let t = lemma_completes(s);
    let more = choose|v: Seq<u8>| #[trigger] fed_all(Some(s), v) == Some(t);
    law_split(started(shape), bytes, more);
    assert(fed_all(started(shape), bytes + more) == Some(t));
}

/// Bytes that may be written leave a stack that can be brought to its end.
proof fn lemma_fed(shape: Shape, bytes: Seq<u8>)
    requires
        can_fill(shape, MAX_DEPTH - 1),
        fed_all(started(shape), bytes) is Some,
    ensures
        live(fed_all(started(shape), bytes)->0),
    decreases bytes.len(),
{
    if bytes.len() > 0 {
        lemma_fed(shape, bytes.drop_last());
        lemma_step(fed_all(started(shape), bytes.drop_last())->0, bytes.last(), MAX_HANDOVERS as nat);
    }
}

/// Output under the constraint that any JSON is allowed never gets stuck: whatever has
/// been let through, some continuation of it is a complete document.
pub proof fn law_json_never_gets_stuck(bytes: Seq<u8>)
    requires
        fed_all(started(Shape::Any), bytes) is Some,
    ensures
        can_be_completed(Shape::Any, bytes),
{
    law_no_dead_end(Shape::Any, bytes);
}

} // verus!
