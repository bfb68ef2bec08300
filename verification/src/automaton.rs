//! The pushdown automaton over bytes that constrained decoding runs, as
//! mathematics: shapes, frames and the transition on one byte.
//!
//! A token is an arbitrary byte string that may straddle any boundary, so the
//! automaton reads bytes, not characters. A state is a stack of frames; a byte
//! either leads to the next stack or cannot follow at all.

use vstd::prelude::*;

verus! {

/// Nesting limit. Deeper than this and the schema is the problem, not the limit.
pub const MAX_DEPTH: usize = 32;

/// Alternatives at one decision point: object properties, or enum members.
/// Bounded because the live ones are tracked as a bitmask.
pub const MAX_OPTIONS: usize = 64;

/// How often one byte may be handed on to the frame below or above.
pub const MAX_HANDOVERS: usize = 5;

// The bytes that JSON gives a meaning.
pub const MINUS: u8 = 45;

pub const PLUS: u8 = 43;

pub const DOT: u8 = 46;

pub const ZERO: u8 = 48;

pub const LOWER_E: u8 = 101;

pub const UPPER_E: u8 = 69;

pub const QUOTE: u8 = 34;

pub const BACKSLASH: u8 = 92;

pub const COLON: u8 = 58;

pub const COMMA: u8 = 44;

pub const OPEN_BRACE: u8 = 123;

pub const CLOSE_BRACE: u8 = 125;

pub const OPEN_BRACKET: u8 = 91;

pub const CLOSE_BRACKET: u8 = 93;

/// The shape that a document must have.
pub enum Shape {
    /// Any JSON value.
    Any,
    Str,
    Num { integer: bool },
    Bool,
    Null,
    /// Permitted values, as their exact JSON encodings.
    Enum(Seq<Seq<u8>>),
    Object(Seq<Property>),
    Array { items: Box<Shape>, min: u32, max: u32 },
}

/// One declared property: its name quoted and escaped as on the wire.
pub struct Property {
    pub key: Seq<u8>,
    pub shape: Shape,
    pub required: bool,
}

/// Where a number can be, mid-literal. JSON's number grammar forbids a leading
/// zero followed by digits, a bare `-`, and an exponent with no digits.
#[derive(Clone, Copy, PartialEq, Eq, Debug, Structural)]
pub enum Num {
    /// Nothing yet: `-` or a digit.
    Lead,
    /// After `-`: a digit must follow.
    Sign,
    /// The integer part is a lone `0`, so no further digit may follow.
    Zero,
    /// One or more integer digits, not a lone zero.
    Int,
    /// After `.`: a digit must follow.
    Dot,
    Frac,
    /// After `e` or `E`: a sign or digit must follow.
    Exp,
    /// After an exponent sign: a digit must follow.
    ExpSign,
    ExpDigits,
}

#[derive(Clone, Copy, PartialEq, Eq, Debug, Structural)]
pub enum ObjPhase {
    /// After `{`: the first key, or `}` for an empty object.
    KeyOrEnd,
    /// After `,`: a key is now mandatory, which is what forbids `{"a":1,}`.
    Key,
    /// A key is being read by the frame above.
    InKey,
    /// After a key: `:`.
    AfterKey,
    /// After `:`: the value must begin.
    BeforeValue,
    /// The value is being read by the frame above.
    InValue,
    /// After a value: `,` or `}`.
    CommaOrEnd,
}

#[derive(Clone, Copy, PartialEq, Eq, Debug, Structural)]
pub enum ArrPhase {
    /// After `[`: an element, or `]`.
    ValueOrEnd,
    /// After `,`: an element must follow.
    Value,
    InValue,
    CommaOrEnd,
}

/// One level of what is being read.
#[allow(inconsistent_fields)]
pub enum FrameV {
    /// The document: one value, then nothing but whitespace.
    Root { shape: Shape, started: bool, done: bool },
    /// An object. One with no declared properties takes any key.
    Obj { props: Seq<Property>, next: int, key: int, phase: ObjPhase },
    Arr { items: Shape, count: int, min: int, max: int, phase: ArrPhase },
    /// Inside a string, past the opening quote.
    Str { escape: bool, hex: int },
    Num { state: Num, integer: bool },
    /// Matching one of a fixed set of byte strings: `alive` are those still
    /// consistent with the `at` bytes read.
    Choice { options: Seq<Seq<u8>>, alive: Set<int>, at: int },
}

pub open spec fn is_digit(b: u8) -> bool {
    48 <= b <= 57
}

pub open spec fn is_hex(b: u8) -> bool {
    is_digit(b) || 65 <= b <= 70 || 97 <= b <= 102
}

/// Space, tab, line feed or carriage return.
pub open spec fn is_space(b: u8) -> bool {
    b == 32 || b == 9 || b == 10 || b == 13
}

impl Num {
    /// Whether the literal read so far is a complete number.
    pub open spec fn ends(self) -> bool {
        self is Zero || self is Int || self is Frac || self is ExpDigits
    }

    /// The next phase, or `None` if this byte is not part of the number.
    pub open spec fn after(self, b: u8, integer: bool) -> Option<Num> {
        match self {
            Num::Lead => if b == MINUS {
                Some(Num::Sign)
            } else if b == ZERO {
                Some(Num::Zero)
            } else if is_digit(b) {
                Some(Num::Int)
            } else {
                None
            },
            Num::Sign => if b == ZERO {
                Some(Num::Zero)
            } else if is_digit(b) {
                Some(Num::Int)
            } else {
                None
            },
            Num::Zero => if integer {
                None
            } else if b == DOT {
                Some(Num::Dot)
            } else if b == LOWER_E || b == UPPER_E {
                Some(Num::Exp)
            } else {
                None
            },
            Num::Int => if is_digit(b) {
                Some(Num::Int)
            } else if integer {
                None
            } else if b == DOT {
                Some(Num::Dot)
            } else if b == LOWER_E || b == UPPER_E {
                Some(Num::Exp)
            } else {
                None
            },
            Num::Dot => if is_digit(b) { Some(Num::Frac) } else { None },
            Num::Frac => if is_digit(b) {
                Some(Num::Frac)
            } else if !integer && (b == LOWER_E || b == UPPER_E) {
                Some(Num::Exp)
            } else {
                None
            },
            Num::Exp => if b == PLUS || b == MINUS {
                Some(Num::ExpSign)
            } else if is_digit(b) {
                Some(Num::ExpDigits)
            } else {
                None
            },
            Num::ExpSign => if is_digit(b) { Some(Num::ExpDigits) } else { None },
            Num::ExpDigits => if is_digit(b) { Some(Num::ExpDigits) } else { None },
        }
    }
}

/// `true`, `false` and `null`, as bytes.
pub open spec fn words() -> Seq<Seq<u8>> {
    seq![
        seq![116u8, 114u8, 117u8, 101u8],
        seq![102u8, 97u8, 108u8, 115u8, 101u8],
        seq![110u8, 117u8, 108u8, 108u8],
    ]
}

pub open spec fn some_alive(alive: Set<int>) -> bool {
    exists|i: int| #[trigger] alive.contains(i)
}

/// The alternatives still alive after reading `b` at offset `at`.
pub open spec fn narrow(options: Seq<Seq<u8>>, alive: Set<int>, at: int, b: u8) -> Set<int> {
    Set::new(
        |i: int|
            alive.contains(i) && 0 <= i < options.len() && options[i].len() > at && options[i][at] == b,
    )
}

/// The first living alternative at or after `from` that ends exactly here.
pub open spec fn settled_from(options: Seq<Seq<u8>>, alive: Set<int>, at: int, from: int) -> Option<int>
    decreases options.len() - from,
{
    if from < 0 || from >= options.len() {
        None
    } else if alive.contains(from) && options[from].len() == at {
        Some(from)
    } else {
        settled_from(options, alive, at, from + 1)
    }
}

/// The keys that may come next at property index `from`: the one at `from`, and
/// those beyond it that are reached by skipping optional ones only.
pub open spec fn keys_from(props: Seq<Property>, from: int) -> Set<int> {
    Set::new(
        |i: int|
            from <= i < props.len() && forall|j: int| from <= j < i ==> !(#[trigger] props[j]).required,
    )
}

/// Whether the object may close: every property still to come is optional.
pub open spec fn may_end(props: Seq<Property>, from: int) -> bool {
    forall|j: int| from <= j < props.len() ==> !(#[trigger] props[j]).required
}

/// The property names of an object, as alternatives.
pub open spec fn key_options(props: Seq<Property>) -> Seq<Seq<u8>> {
    Seq::new(props.len(), |i: int| props[i].key)
}

/// The stack with its top frame replaced.
pub open spec fn with_top(s: Seq<FrameV>, f: FrameV) -> Seq<FrameV> {
    s.update(s.len() - 1, f)
}

/// The stack with one frame more, where there is room for it.
pub open spec fn pushed(s: Seq<FrameV>, f: FrameV) -> Option<Seq<FrameV>> {
    if s.len() >= MAX_DEPTH {
        None
    } else {
        Some(s.push(f))
    }
}

/// A value or key just finished: the frame that wanted it is told. `matched` is
/// the alternative a choice settled on.
pub open spec fn finish(s: Seq<FrameV>, matched: Option<int>) -> Option<Seq<FrameV>> {
    if s.len() == 0 {
        None
    } else {
        match s.last() {
            FrameV::Root { shape, started, .. } => Some(with_top(s, FrameV::Root { shape, started, done: true })),
            FrameV::Obj { props, next, key, phase } => match phase {
                ObjPhase::InKey => Some(
                    with_top(
                        s,
                        FrameV::Obj {
                            props,
                            next,
                            key: match matched {
                                Some(i) => i,
                                None => 0,
                            },
                            phase: ObjPhase::AfterKey,
                        },
                    ),
                ),
                ObjPhase::InValue => Some(
                    with_top(s, FrameV::Obj { props, next: key + 1, key, phase: ObjPhase::CommaOrEnd }),
                ),
                _ => None,
            },
            FrameV::Arr { items, count, min, max, phase } => if phase is InValue {
                Some(with_top(s, FrameV::Arr { items, count: count + 1, min, max, phase: ArrPhase::CommaOrEnd }))
            } else {
                None
            },
            _ => None,
        }
    }
}

/// The transition inside a string.
pub open spec fn string_step(s: Seq<FrameV>, b: u8, escape: bool, hex: int) -> Option<Seq<FrameV>> {
    if hex > 0 {
        if is_hex(b) {
            Some(with_top(s, FrameV::Str { escape: false, hex: hex - 1 }))
        } else {
            None
        }
    } else if escape {
        if b == QUOTE || b == BACKSLASH || b == 47 || b == 98 || b == 102 || b == 110 || b == 114 || b == 116 {
            Some(with_top(s, FrameV::Str { escape: false, hex: 0 }))
        } else if b == 117 {
            Some(with_top(s, FrameV::Str { escape: false, hex: 4 }))
        } else {
            None
        }
    } else if b == QUOTE {
        finish(s.drop_last(), None)
    } else if b == BACKSLASH {
        Some(with_top(s, FrameV::Str { escape: true, hex: 0 }))
    } else if b < 32 {
        None
    } else {
        Some(s)
    }
}

/// The stack after reading `b`, or `None` where `b` cannot follow. Whatever
/// scalar is in progress takes the byte first; a byte that cannot extend it
/// closes it, if it can be closed, and is read by what is below.
pub open spec fn step(s: Seq<FrameV>, b: u8, fuel: nat) -> Option<Seq<FrameV>>
    decreases fuel, 3nat,
{
    if fuel == 0 {
        None
    } else if s.len() == 0 {
        if is_space(b) {
            Some(s)
        } else {
            None
        }
    } else {
        match s.last() {
            FrameV::Str { escape, hex } => string_step(s, b, escape, hex),
            FrameV::Num { state, integer } => match state.after(b, integer) {
                Some(n) => Some(with_top(s, FrameV::Num { state: n, integer })),
                None => if state.ends() {
                    match finish(s.drop_last(), None) {
                        Some(t) => step(t, b, (fuel - 1) as nat),
                        None => None,
                    }
                } else {
                    None
                },
            },
            FrameV::Choice { options, alive, at } => {
                let narrowed = narrow(options, alive, at, b);
                if some_alive(narrowed) {
                    Some(with_top(s, FrameV::Choice { options, alive: narrowed, at: at + 1 }))
                } else {
                    match settled_from(options, alive, at, 0) {
                        Some(i) => match finish(s.drop_last(), Some(i)) {
                            Some(t) => step(t, b, (fuel - 1) as nat),
                            None => None,
                        },
                        None => None,
                    }
                }
            },
            _ => if is_space(b) {
                Some(s)
            } else {
                structure(s, b, fuel)
            },
        }
    }
}

/// The transition between scalars, on a byte that is not whitespace.
pub open spec fn structure(s: Seq<FrameV>, b: u8, fuel: nat) -> Option<Seq<FrameV>>
    decreases fuel, 2nat,
{
    match s.last() {
        FrameV::Root { shape, started, .. } => if started {
            None
        } else {
            begin(with_top(s, FrameV::Root { shape, started: true, done: false }), shape, b, fuel)
        },
        FrameV::Obj { props, next, key, phase } => match phase {
            ObjPhase::KeyOrEnd | ObjPhase::Key => if b == QUOTE {
                let t = with_top(s, FrameV::Obj { props, next, key, phase: ObjPhase::InKey });
                if props.len() == 0 {
                    pushed(t, FrameV::Str { escape: false, hex: 0 })
                } else {
                    choose_one(t, key_options(props), keys_from(props, next), b, fuel)
                }
            } else if b == CLOSE_BRACE && phase is KeyOrEnd && may_end(props, next) {
                finish(s.drop_last(), None)
            } else {
                None
            },
            ObjPhase::AfterKey => if b == COLON {
                Some(with_top(s, FrameV::Obj { props, next, key, phase: ObjPhase::BeforeValue }))
            } else {
                None
            },
            ObjPhase::BeforeValue => begin(
                with_top(s, FrameV::Obj { props, next, key, phase: ObjPhase::InValue }),
                if 0 <= key < props.len() {
                    props[key].shape
                } else {
                    Shape::Any
                },
                b,
                fuel,
            ),
            ObjPhase::CommaOrEnd => if b == COMMA && (props.len() == 0 || some_alive(keys_from(props, next))) {
                Some(with_top(s, FrameV::Obj { props, next, key, phase: ObjPhase::Key }))
            } else if b == CLOSE_BRACE && may_end(props, next) {
                finish(s.drop_last(), None)
            } else {
                None
            },
            ObjPhase::InKey | ObjPhase::InValue => None,
        },
        FrameV::Arr { items, count, min, max, phase } => {
            let inside = with_top(s, FrameV::Arr { items, count, min, max, phase: ArrPhase::InValue });
            match phase {
                ArrPhase::ValueOrEnd => if b == CLOSE_BRACKET && count >= min {
                    finish(s.drop_last(), None)
                } else if count < max {
                    begin(inside, items, b, fuel)
                } else {
                    None
                },
                ArrPhase::Value => if count < max {
                    begin(inside, items, b, fuel)
                } else {
                    None
                },
                ArrPhase::CommaOrEnd => if b == COMMA && count < max {
                    Some(with_top(s, FrameV::Arr { items, count, min, max, phase: ArrPhase::Value }))
                } else if b == CLOSE_BRACKET && count >= min {
                    finish(s.drop_last(), None)
                } else {
                    None
                },
                ArrPhase::InValue => None,
            }
        },
        _ => None,
    }
}

/// Begin a number with the byte `b`.
pub open spec fn number(s: Seq<FrameV>, integer: bool, b: u8, fuel: nat) -> Option<Seq<FrameV>>
    decreases fuel, 0nat,
{
    match pushed(s, FrameV::Num { state: Num::Lead, integer }) {
        Some(t) if fuel > 0 => step(t, b, (fuel - 1) as nat),
        _ => None,
    }
}

/// Begin one of a fixed set of byte strings with the byte `b`.
pub open spec fn choose_one(s: Seq<FrameV>, options: Seq<Seq<u8>>, alive: Set<int>, b: u8, fuel: nat) -> Option<
    Seq<FrameV>,
>
    decreases fuel, 0nat,
{
    if !some_alive(alive) {
        None
    } else {
        match pushed(s, FrameV::Choice { options, alive, at: 0 }) {
            Some(t) if fuel > 0 => step(t, b, (fuel - 1) as nat),
            _ => None,
        }
    }
}

/// Begin a value of the given shape, whose first byte is `b`.
pub open spec fn begin(s: Seq<FrameV>, shape: Shape, b: u8, fuel: nat) -> Option<Seq<FrameV>>
    decreases fuel, 1nat,
{
    match shape {
        Shape::Any => if b == OPEN_BRACE {
            pushed(s, FrameV::Obj { props: Seq::empty(), next: 0, key: 0, phase: ObjPhase::KeyOrEnd })
        } else if b == OPEN_BRACKET {
            pushed(
                s,
                FrameV::Arr { items: Shape::Any, count: 0, min: 0, max: u32::MAX as int, phase: ArrPhase::ValueOrEnd },
            )
        } else if b == QUOTE {
            pushed(s, FrameV::Str { escape: false, hex: 0 })
        } else if b == MINUS || is_digit(b) {
            number(s, false, b, fuel)
        } else if b == 116 || b == 102 || b == 110 {
            choose_one(s, words(), Set::new(|i: int| 0 <= i < 3), b, fuel)
        } else {
            None
        },
        Shape::Object(props) => if b == OPEN_BRACE {
            pushed(s, FrameV::Obj { props, next: 0, key: 0, phase: ObjPhase::KeyOrEnd })
        } else {
            None
        },
        Shape::Array { items, min, max } => if b == OPEN_BRACKET {
            pushed(
                s,
                FrameV::Arr { items: *items, count: 0, min: min as int, max: max as int, phase: ArrPhase::ValueOrEnd },
            )
        } else {
            None
        },
        Shape::Str => if b == QUOTE {
            pushed(s, FrameV::Str { escape: false, hex: 0 })
        } else {
            None
        },
        Shape::Num { integer } => if b == MINUS || is_digit(b) {
            number(s, integer, b, fuel)
        } else {
            None
        },
        Shape::Bool => choose_one(s, words(), Set::new(|i: int| 0 <= i < 2), b, fuel),
        Shape::Null => choose_one(s, words(), Set::new(|i: int| i == 2), b, fuel),
        Shape::Enum(options) => choose_one(s, options, Set::new(|i: int| 0 <= i < options.len()), b, fuel),
    }
}

/// The scalars that the end of the output would close, closed.
pub open spec fn settle(s: Seq<FrameV>) -> Option<Seq<FrameV>>
    decreases s.len(),
{
    if s.len() == 0 {
        Some(s)
    } else {
        match s.last() {
            FrameV::Num { state, .. } => if !state.ends() {
                None
            } else {
                match finish(s.drop_last(), None) {
                    Some(t) if t.len() < s.len() => settle(t),
                    _ => None,
                }
            },
            FrameV::Choice { options, alive, at } => match settled_from(options, alive, at, 0) {
                Some(i) => match finish(s.drop_last(), Some(i)) {
                    Some(t) if t.len() < s.len() => settle(t),
                    _ => None,
                },
                None => None,
            },
            _ => Some(s),
        }
    }
}

/// Whether a stack stands at the end of a complete document.
pub open spec fn is_complete(s: Seq<FrameV>) -> bool {
    match settle(s) {
        Some(t) => t.len() > 0 && (t.last() matches FrameV::Root { done, .. } && done),
        None => false,
    }
}

/// The state after one byte. A machine that has failed stays failed.
pub open spec fn fed(s: Option<Seq<FrameV>>, b: u8) -> Option<Seq<FrameV>> {
    match s {
        Some(t) => step(t, b, MAX_HANDOVERS as nat),
        None => None,
    }
}

/// The state after a string of bytes.
pub open spec fn fed_all(s: Option<Seq<FrameV>>, bytes: Seq<u8>) -> Option<Seq<FrameV>>
    decreases bytes.len(),
{
    if bytes.len() == 0 {
        s
    } else {
        fed(fed_all(s, bytes.drop_last()), bytes.last())
    }
}

/// The state before the first byte of a document of the given shape.
pub open spec fn started(shape: Shape) -> Option<Seq<FrameV>> {
    Some(seq![FrameV::Root { shape, started: false, done: false }])
}

/// What settles a choice is one of its options that ends here.
pub(crate) proof fn lemma_settled(options: Seq<Seq<u8>>, alive: Set<int>, at: int, from: int)
    requires
        from >= 0,
    ensures
        settled_from(options, alive, at, from) matches Some(i) ==> alive.contains(i) && 0 <= i < options.len()
            && options[i].len() == at,
        settled_from(options, alive, at, from) is None ==> forall|i: int|
            from <= i < options.len() ==> !(#[trigger] alive.contains(i) && options[i].len() == at),
    decreases options.len() - from,
{
    if from < options.len() && !(alive.contains(from) && options[from].len() == at) {
        lemma_settled(options, alive, at, from + 1);
    }
}

/// Bytes may arrive in any grouping: feeding a string in two parts is feeding it
/// at once.
pub proof fn law_split(s: Option<Seq<FrameV>>, first: Seq<u8>, second: Seq<u8>)
    ensures
        fed_all(fed_all(s, first), second) == fed_all(s, first + second),
    decreases second.len(),
{
    if second.len() == 0 {
        assert(first + second =~= first);
    } else {
        law_split(s, first, second.drop_last());
        assert((first + second).drop_last() =~= first + second.drop_last());
        assert((first + second).last() == second.last());
    }
}

/// A machine that has failed stays failed, whatever follows.
pub proof fn law_failure_is_final(bytes: Seq<u8>)
    ensures
        fed_all(None, bytes) is None,
    decreases bytes.len(),
{
    if bytes.len() > 0 {
        law_failure_is_final(bytes.drop_last());
    }
}

} // verus!
