//! Constrained decoding: making invalid output unrepresentable.
//!
//! At every step, tokens whose bytes could not continue a valid document are
//! masked out. The model still chooses; it simply cannot choose something
//! malformed. The checker is the automaton of [`crate::automaton`]; its state is
//! `Copy` and shallow by construction, so testing a candidate token is a copy of
//! a short stack plus one pass over the token's bytes.
//!
//! The same machine covers free-form JSON and a JSON Schema: free-form is just
//! the schema that permits anything.

use vstd::prelude::*;
use crate::automaton::{BACKSLASH, CLOSE_BRACE, CLOSE_BRACKET, COLON, COMMA, DOT, LOWER_E, MINUS, OPEN_BRACE, OPEN_BRACKET, PLUS, QUOTE, UPPER_E, ZERO};
use vstd::utf8::encode_utf8;
use crate::json::{Json, JsonV, entry_from, quote, quoted, text_of};
use crate::tokenizer::{lemma_no_text, Tokenizer, TokenizerV};
use crate::vocabulary::Listing;
use std::collections::HashMap;
use crate::text::{bytes_of, decimal, decimal_of, join, join3, same};
use crate::automaton::{ArrPhase, FrameV, MAX_DEPTH, MAX_HANDOVERS, MAX_OPTIONS, Num, ObjPhase, Property, Shape};

verus! {

/// The node id of `Any`, which every grammar carries at index 0 so that a
/// free-form value always has a shape to point at.
const ANY: usize = 0;

/// One compiled shape. Its parts are named by their index in the grammar.
#[derive(Debug)]
pub(crate) enum Node {
    Any,
    Str,
    Num { integer: bool },
    Bool,
    Null,
    Enum(Vec<Vec<u8>>),
    Object { keys: Vec<Vec<u8>>, values: Vec<usize>, required: Vec<bool> },
    Array { items: usize, min: u32, max: u32 },
}

/// A compiled shape a document must have.
#[derive(Debug)]
pub struct Grammar {
    pub(crate) nodes: Vec<Node>,
    pub(crate) root: usize,
    pub(crate) words: Vec<Vec<u8>>,
}

/// The byte strings in a vector of vectors.
pub open spec fn strings_of(v: Vec<Vec<u8>>) -> Seq<Seq<u8>> {
    Seq::new(v@.len(), |i: int| v@[i]@)
}

/// Whether the parts of node `i` come before it and its lists agree.
pub(crate) open spec fn node_ok(n: Node, i: int) -> bool {
    match n {
        Node::Enum(v) => v@.len() <= MAX_OPTIONS,
        Node::Object { keys, values, required } => {
            &&& keys@.len() == values@.len()
            &&& keys@.len() == required@.len()
            &&& keys@.len() <= MAX_OPTIONS
            &&& forall|j: int| 0 <= j < values@.len() ==> (#[trigger] values@[j]) < i
        },
        Node::Array { items, .. } => items < i,
        _ => true,
    }
}

pub(crate) open spec fn nodes_ok(nodes: Seq<Node>) -> bool {
    &&& nodes.len() > 0
    &&& nodes[0] is Any
    &&& forall|i: int| 0 <= i < nodes.len() ==> node_ok(#[trigger] nodes[i], i)
}

/// The shape that node `id` stands for.
pub(crate) open spec fn unfold(nodes: Seq<Node>, id: int) -> Shape
    decreases id,
{
    if id < 0 || id >= nodes.len() {
        Shape::Any
    } else {
        match nodes[id] {
            Node::Any => Shape::Any,
            Node::Str => Shape::Str,
            Node::Num { integer } => Shape::Num { integer },
            Node::Bool => Shape::Bool,
            Node::Null => Shape::Null,
            Node::Enum(v) => Shape::Enum(strings_of(v)),
            Node::Object { keys, values, required } => Shape::Object(
                Seq::new(
                    keys@.len(),
                    |j: int|
                        Property {
                            key: keys@[j]@,
                            shape: if values@[j] < id {
                                unfold(nodes, values@[j] as int)
                            } else {
                                Shape::Any
                            },
                            required: required@[j],
                        },
                ),
            ),
            Node::Array { items, min, max } => Shape::Array {
                items: Box::new(
                    if items < id {
                        unfold(nodes, items as int)
                    } else {
                        Shape::Any
                    },
                ),
                min,
                max,
            },
        }
    }
}

/// Nodes that are added later change no shape.
proof fn lemma_unfold_extends(nodes: Seq<Node>, more: Seq<Node>, id: int)
    requires
        nodes.is_prefix_of(more),
        0 <= id < nodes.len(),
        nodes_ok(nodes),
    ensures
        unfold(more, id) == unfold(nodes, id),
    decreases id,
{
    assert(more[id] == more.subrange(0, nodes.len() as int)[id]);
    match nodes[id] {
        Node::Object { keys, values, required } => {
            assert forall|j: int| 0 <= j < keys@.len() implies unfold(more, values@[j] as int) == unfold(
                nodes,
                values@[j] as int,
            ) by {
                assert(node_ok(nodes[id], id));
                lemma_unfold_extends(nodes, more, values@[j] as int);
            }
            assert(unfold(more, id)->Object_0 =~= unfold(nodes, id)->Object_0);
        },
        Node::Array { items, .. } => {
            assert(node_ok(nodes[id], id));
            lemma_unfold_extends(nodes, more, items as int);
        },
        _ => {},
    }
}

/// Which set of fixed alternatives a choice is narrowing.
#[derive(Clone, Copy, PartialEq, Eq, Debug, Structural)]
pub(crate) enum Alternatives {
    /// `true`, `false`, `null`.
    Words,
    Enum(usize),
    Keys(usize),
}

#[derive(Clone, Copy, PartialEq, Eq, Debug, Structural)]
#[allow(inconsistent_fields)]
pub(crate) enum Frame {
    Empty,
    Root { node: usize, started: bool, done: bool },
    Obj { node: usize, open: bool, next: usize, key: usize, phase: ObjPhase },
    Arr { items: usize, count: u32, min: u32, max: u32, phase: ArrPhase },
    Str { escape: bool, hex: u8 },
    Num { state: Num, integer: bool },
    /// `alive` is a bitmask of the alternatives still consistent with what has
    /// been read.
    Choice { set: Alternatives, alive: u64, at: usize },
}

/// The automaton's state. Copyable on purpose: checking a candidate token means
/// forking this, and that has to be cheap.
#[derive(Clone, Copy)]
pub struct Machine {
    pub(crate) stack: [Frame; 32],
    pub(crate) len: usize,
    pub(crate) failed: bool,
}

pub(crate) open spec fn bit(mask: u64, i: u64) -> bool {
    (mask >> i) & 1 == 1
}

/// The indices of the bits that are set.
pub(crate) open spec fn alive_set(mask: u64) -> Set<int> {
    Set::new(|i: int| 0 <= i < 64 && bit(mask, i as u64))
}

proof fn lemma_set_bit(mask: u64, i: u64)
    requires
        i < 64,
    ensures
        alive_set(mask | (1u64 << i)) == alive_set(mask).insert(i as int),
{
    assert forall|j: int| alive_set(mask | (1u64 << i)).contains(j) <==> alive_set(mask).insert(i as int).contains(j) by {
        if 0 <= j < 64 {
            let k = j as u64;
            assert(((mask | (1u64 << i)) >> k) & 1 == 1 <==> ((mask >> k) & 1 == 1 || k == i)) by (bit_vector)
                requires
                    i < 64,
                    k < 64,
            ;
        }
    }
    assert(alive_set(mask | (1u64 << i)) =~= alive_set(mask).insert(i as int));
}

proof fn lemma_no_bits()
    ensures
        alive_set(0) == Set::<int>::empty(),
{
    assert forall|j: int| !alive_set(0).contains(j) by {
        if 0 <= j < 64 {
            let k = j as u64;
            assert((0u64 >> k) & 1 == 0) by (bit_vector)
                requires
                    k < 64,
            ;
        }
    }
    assert(alive_set(0) =~= Set::<int>::empty());
}

fn has_bit(mask: u64, i: usize) -> (r: bool)
    requires
        i < 64,
    ensures
        r == alive_set(mask).contains(i as int),
{
    (mask >> (i as u64)) & 1 == 1
}

fn set_bit(mask: u64, i: usize) -> (r: u64)
    requires
        i < 64,
    ensures
        alive_set(r) == alive_set(mask).insert(i as int),
{
    proof {
        lemma_set_bit(mask, i as u64);
    }
    mask | (1u64 << (i as u64))
}

/// The mask of the first `n` alternatives.
fn first_bits(n: usize) -> (r: u64)
    requires
        n <= 64,
    ensures
        alive_set(r) == Set::new(|i: int| 0 <= i < n),
{
    let mut mask: u64 = 0;
    let mut i: usize = 0;
    proof {
        lemma_no_bits();
        assert(alive_set(mask) =~= Set::new(|j: int| 0 <= j < 0));
    }
    while i < n
        invariant
            i <= n <= 64,
            alive_set(mask) == Set::new(|j: int| 0 <= j < i),
        decreases n - i,
    {
        mask = set_bit(mask, i);
        i += 1;
        assert(alive_set(mask) =~= Set::new(|j: int| 0 <= j < i));
    }
    mask
}

impl Num {
    /// Whether the literal read so far is a complete number.
    pub fn terminable(self) -> (r: bool)
        ensures
            r == self.ends(),
    {
        matches!(self, Num::Zero | Num::Int | Num::Frac | Num::ExpDigits)
    }

    /// The next phase, or `None` if this byte is not part of the number.
    pub fn feed(self, b: u8, integer: bool) -> (r: Option<Num>)
        ensures
            r == self.after(b, integer),
    {
        let digit = 48 <= b && b <= 57;
        let exponent = (b == LOWER_E || b == UPPER_E) && !integer;
        let point = b == DOT && !integer;
        match self {
            Num::Lead if b == MINUS => Some(Num::Sign),
            Num::Lead if b == ZERO => Some(Num::Zero),
            Num::Lead if digit => Some(Num::Int),
            Num::Sign if b == ZERO => Some(Num::Zero),
            Num::Sign if digit => Some(Num::Int),
            Num::Zero if point => Some(Num::Dot),
            Num::Zero if exponent => Some(Num::Exp),
            Num::Int if digit => Some(Num::Int),
            Num::Int if point => Some(Num::Dot),
            Num::Int if exponent => Some(Num::Exp),
            Num::Dot if digit => Some(Num::Frac),
            Num::Frac if digit => Some(Num::Frac),
            Num::Frac if exponent => Some(Num::Exp),
            Num::Exp if b == PLUS || b == MINUS => Some(Num::ExpSign),
            Num::Exp if digit => Some(Num::ExpDigits),
            Num::ExpSign if digit => Some(Num::ExpDigits),
            Num::ExpDigits if digit => Some(Num::ExpDigits),
            _ => None,
        }
    }
}

impl Grammar {
    /// The byte strings that a set of alternatives stands for.
    pub(crate) open spec fn options_of(self, set: Alternatives) -> Seq<Seq<u8>> {
        match set {
            Alternatives::Words => strings_of(self.words),
            Alternatives::Enum(n) => match self.nodes@[n as int] {
                Node::Enum(v) => strings_of(v),
                _ => Seq::empty(),
            },
            Alternatives::Keys(n) => match self.nodes@[n as int] {
                Node::Object { keys, .. } => strings_of(keys),
                _ => Seq::empty(),
            },
        }
    }

    /// The declared properties of node `n`.
    pub(crate) open spec fn props_of(self, n: int) -> Seq<Property> {
        match unfold(self.nodes@, n) {
            Shape::Object(p) => p,
            _ => Seq::empty(),
        }
    }

    /// What a frame means under this grammar.
    pub(crate) open spec fn frame_view(self, f: Frame) -> FrameV {
        match f {
            Frame::Empty => FrameV::Str { escape: false, hex: 0 },
            Frame::Root { node, started, done } => FrameV::Root {
                shape: unfold(self.nodes@, node as int),
                started,
                done,
            },
            Frame::Obj { node, open, next, key, phase } => FrameV::Obj {
                props: self.props_of(node as int),
                next: next as int,
                key: key as int,
                phase,
            },
            Frame::Arr { items, count, min, max, phase } => FrameV::Arr {
                items: unfold(self.nodes@, items as int),
                count: count as int,
                min: min as int,
                max: max as int,
                phase,
            },
            Frame::Str { escape, hex } => FrameV::Str { escape, hex: hex as int },
            Frame::Num { state, integer } => FrameV::Num { state, integer },
            Frame::Choice { set, alive, at } => FrameV::Choice {
                options: self.options_of(set),
                alive: alive_set(alive),
                at: at as int,
            },
        }
    }

    /// Whether a frame speaks of nodes that this grammar has.
    pub(crate) open spec fn frame_ok(self, f: Frame) -> bool {
        match f {
            Frame::Empty => false,
            Frame::Root { node, .. } => node < self.nodes@.len(),
            Frame::Obj { node, open, next, key, .. } => {
                &&& node < self.nodes@.len()
                &&& open == (self.props_of(node as int).len() == 0)
                &&& key < MAX_OPTIONS
                &&& next <= MAX_OPTIONS
            },
            Frame::Arr { items, count, max, phase, .. } => {
                &&& items < self.nodes@.len()
                &&& phase is InValue ==> count < max
            },
            Frame::Str { hex, .. } => hex <= 4,
            Frame::Num { .. } => true,
            Frame::Choice { set, .. } => match set {
                Alternatives::Words => true,
                Alternatives::Enum(n) => n < self.nodes@.len(),
                Alternatives::Keys(n) => n < self.nodes@.len(),
            },
        }
    }

    /// The grammar's own invariant: the parts of every node come before it.
    pub closed spec fn valid(self) -> bool {
        &&& nodes_ok(self.nodes@)
        &&& self.root < self.nodes@.len()
        &&& strings_of(self.words) == crate::automaton::words()
    }

    /// The shape that this grammar asks of a document.
    pub closed spec fn shape(self) -> Shape {
        unfold(self.nodes@, self.root as int)
    }

    pub(crate) open spec fn stack_view(self, raw: Seq<Frame>) -> Seq<FrameV> {
        Seq::new(raw.len(), |i: int| self.frame_view(raw[i]))
    }

    pub(crate) open spec fn stack_ok(self, raw: Seq<Frame>) -> bool {
        forall|i: int| 0 <= i < raw.len() ==> self.frame_ok(#[trigger] raw[i])
    }

    /// Whether a machine's state belongs to this grammar.
    pub closed spec fn owns(self, m: Machine) -> bool {
        m.len <= MAX_DEPTH && self.stack_ok(m.raw())
    }

    /// The state of a machine: its stack, or `None` once it has failed.
    pub closed spec fn state(self, m: Machine) -> Option<Seq<FrameV>> {
        if m.failed {
            None
        } else {
            Some(self.stack_view(m.raw()))
        }
    }
}

impl Machine {
    /// The live part of the stack.
    pub(crate) open spec fn raw(self) -> Seq<Frame> {
        self.stack@.subrange(0, self.len as int)
    }

    fn top(&self) -> (r: Frame)
        requires
            self.len <= MAX_DEPTH,
        ensures
            r == (if self.raw().len() == 0 { Frame::Empty } else { self.raw().last() }),
    {
        if self.len == 0 {
            Frame::Empty
        } else {
            self.stack[self.len - 1]
        }
    }

    fn set_top(&mut self, f: Frame)
        requires
            0 < old(self).len <= MAX_DEPTH,
        ensures
            final(self).len == old(self).len,
            final(self).failed == old(self).failed,
            final(self).raw() == old(self).raw().update(old(self).len - 1, f),
    {
        self.stack[self.len - 1] = f;
        assert(self.raw() =~= old(self).raw().update(old(self).len - 1, f));
    }

    fn push(&mut self, f: Frame) -> (r: bool)
        requires
            old(self).len <= MAX_DEPTH,
        ensures
            final(self).failed == old(self).failed,
            final(self).len <= MAX_DEPTH,
            r == (old(self).len < MAX_DEPTH),
            r ==> final(self).raw() == old(self).raw().push(f),
            !r ==> *final(self) == *old(self),
    {
        if self.len >= MAX_DEPTH {
            return false;
        }
        self.stack[self.len] = f;
        self.len += 1;
        assert(self.raw() =~= old(self).raw().push(f));
        true
    }

    fn pop(&mut self)
        requires
            0 < old(self).len <= MAX_DEPTH,
        ensures
            final(self).len == old(self).len - 1,
            final(self).failed == old(self).failed,
            final(self).raw() == old(self).raw().drop_last(),
    {
        self.len -= 1;
        assert(self.raw() =~= old(self).raw().drop_last());
    }
}

proof fn lemma_stack_push(g: Grammar, raw: Seq<Frame>, f: Frame)
    ensures
        g.stack_view(raw.push(f)) == g.stack_view(raw).push(g.frame_view(f)),
{
    assert(g.stack_view(raw.push(f)) =~= g.stack_view(raw).push(g.frame_view(f)));
}

proof fn lemma_stack_pop(g: Grammar, raw: Seq<Frame>)
    requires
        raw.len() > 0,
    ensures
        g.stack_view(raw.drop_last()) == g.stack_view(raw).drop_last(),
        g.stack_view(raw).last() == g.frame_view(raw.last()),
{
    assert(g.stack_view(raw.drop_last()) =~= g.stack_view(raw).drop_last());
}

proof fn lemma_stack_top(g: Grammar, raw: Seq<Frame>, f: Frame)
    requires
        raw.len() > 0,
    ensures
        g.stack_view(raw.update(raw.len() - 1, f)) == crate::automaton::with_top(g.stack_view(raw), g.frame_view(f)),
        g.stack_view(raw).last() == g.frame_view(raw.last()),
{
    assert(g.stack_view(raw.update(raw.len() - 1, f)) =~= crate::automaton::with_top(
        g.stack_view(raw),
        g.frame_view(f),
    ));
}

impl Grammar {
    /// What running a step on a machine amounts to.
    pub(crate) open spec fn stepped(self, before: Machine, after: Machine, ok: bool, want: Option<Seq<FrameV>>) -> bool {
        &&& after.len <= MAX_DEPTH
        &&& after.failed == before.failed
        &&& self.stack_ok(after.raw())
        &&& ok == (want is Some)
        &&& ok ==> want == Some(self.stack_view(after.raw()))
    }

    fn replace(&self, m: &mut Machine, f: Frame)
        requires
            0 < old(m).len <= MAX_DEPTH,
            self.stack_ok(old(m).raw()),
            self.frame_ok(f),
        ensures
            self.stepped(
                *old(m),
                *final(m),
                true,
                Some(crate::automaton::with_top(self.stack_view(old(m).raw()), self.frame_view(f))),
            ),
            final(m).len == old(m).len,
            final(m).raw().last() == f,
    {
        proof {
            lemma_stack_top(*self, m.raw(), f);
        }
        m.set_top(f);
    }

    fn grow(&self, m: &mut Machine, f: Frame) -> (ok: bool)
        requires
            old(m).len <= MAX_DEPTH,
            self.stack_ok(old(m).raw()),
            self.frame_ok(f),
        ensures
            self.stepped(
                *old(m),
                *final(m),
                ok,
                crate::automaton::pushed(self.stack_view(old(m).raw()), self.frame_view(f)),
            ),
            ok ==> final(m).len > 0,
    {
        proof {
            lemma_stack_push(*self, m.raw(), f);
        }
        m.push(f)
    }

    /// The top frame is done: take it off and tell the frame that wanted it.
    fn close(&self, m: &mut Machine, matched: Option<usize>) -> (ok: bool)
        requires
            0 < old(m).len <= MAX_DEPTH,
            self.stack_ok(old(m).raw()),
            matched matches Some(i) ==> i < MAX_OPTIONS,
        ensures
            self.stepped(
                *old(m),
                *final(m),
                ok,
                crate::automaton::finish(
                    self.stack_view(old(m).raw()).drop_last(),
                    match matched {
                        Some(i) => Some(i as int),
                        None => None,
                    },
                ),
            ),
            final(m).len < old(m).len,
    {
        proof {
            lemma_stack_pop(*self, m.raw());
        }
        m.pop();
        self.finish(m, matched)
    }

    /// A unit, value or key, just finished; tell the frame that wanted it.
    fn finish(&self, m: &mut Machine, matched: Option<usize>) -> (ok: bool)
        requires
            old(m).len <= MAX_DEPTH,
            self.stack_ok(old(m).raw()),
            matched matches Some(i) ==> i < MAX_OPTIONS,
        ensures
            self.stepped(
                *old(m),
                *final(m),
                ok,
                crate::automaton::finish(
                    self.stack_view(old(m).raw()),
                    match matched {
                        Some(i) => Some(i as int),
                        None => None,
                    },
                ),
            ),
            final(m).len == old(m).len,
    {
        proof {
            if m.raw().len() > 0 {
                lemma_stack_pop(*self, m.raw());
                assert(self.frame_ok(m.raw().last()));
            }
        }
        match m.top() {
            Frame::Root { node, started, .. } => {
                self.replace(m, Frame::Root { node, started, done: true });
                true
            },
            Frame::Obj { node, open, next, key, phase } => match phase {
                ObjPhase::InKey => {
                    let chosen: usize = match matched {
                        Some(i) => i,
                        None => 0,
                    };
                    self.replace(m, Frame::Obj { node, open, next, key: chosen, phase: ObjPhase::AfterKey });
                    true
                },
                ObjPhase::InValue => {
                    self.replace(m, Frame::Obj { node, open, next: key + 1, key, phase: ObjPhase::CommaOrEnd });
                    true
                },
                _ => false,
            },
            Frame::Arr { items, count, min, max, phase } => match phase {
                ArrPhase::InValue => {
                    self.replace(m, Frame::Arr { items, count: count + 1, min, max, phase: ArrPhase::CommaOrEnd });
                    true
                },
                _ => false,
            },
            _ => false,
        }
    }
}

impl Grammar {
    /// The alternatives a choice is choosing between.
    fn options(&self, set: Alternatives) -> (r: Option<&Vec<Vec<u8>>>)
        requires
            self.valid(),
            self.frame_ok(Frame::Choice { set, alive: 0, at: 0 }),
        ensures
            match r {
                Some(v) => strings_of(*v) == self.options_of(set) && v@.len() <= MAX_OPTIONS,
                None => self.options_of(set) == Seq::<Seq<u8>>::empty(),
            },
    {
        match set {
            Alternatives::Words => {
                assert(strings_of(self.words).len() == 3);
                Some(&self.words)
            },
            Alternatives::Enum(n) => {
                assert(node_ok(self.nodes@[n as int], n as int));
                match &self.nodes[n] {
                    Node::Enum(v) => Some(v),
                    _ => None,
                }
            },
            Alternatives::Keys(n) => {
                assert(node_ok(self.nodes@[n as int], n as int));
                match &self.nodes[n] {
                    Node::Object { keys, .. } => Some(keys),
                    _ => None,
                }
            },
        }
    }

    /// The alternative that ends exactly here, if any.
    #[verifier::loop_isolation(false)]
    fn settled_option(&self, set: Alternatives, alive: u64, at: usize) -> (r: Option<usize>)
        requires
            self.valid(),
            self.frame_ok(Frame::Choice { set, alive: 0, at: 0 }),
        ensures
            match r {
                Some(i) => i < MAX_OPTIONS && crate::automaton::settled_from(
                    self.options_of(set),
                    alive_set(alive),
                    at as int,
                    0,
                ) == Some(i as int),
                None => crate::automaton::settled_from(self.options_of(set), alive_set(alive), at as int, 0) is None,
            },
    {
        let ghost options = self.options_of(set);
        match self.options(set) {
            Some(v) => {
                let mut i: usize = 0;
                while i < v.len()
                    invariant
                        i <= v@.len() <= MAX_OPTIONS,
                        strings_of(*v) == options,
                        crate::automaton::settled_from(options, alive_set(alive), at as int, 0)
                            == crate::automaton::settled_from(options, alive_set(alive), at as int, i as int),
                    decreases v.len() - i,
                {
                    assert(options[i as int] == v@[i as int]@);
                    if has_bit(alive, i) && v[i].len() == at {
                        return Some(i);
                    }
                    i += 1;
                }
                None
            },
            None => None,
        }
    }

    /// The alternatives still alive after reading `b` at offset `at`, and
    /// whether there are any.
    fn narrow(&self, set: Alternatives, alive: u64, at: usize, b: u8) -> (r: (u64, bool))
        requires
            self.valid(),
            self.frame_ok(Frame::Choice { set, alive: 0, at: 0 }),
        ensures
            alive_set(r.0) == crate::automaton::narrow(self.options_of(set), alive_set(alive), at as int, b),
            r.1 == crate::automaton::some_alive(
                crate::automaton::narrow(self.options_of(set), alive_set(alive), at as int, b),
            ),
            r.1 ==> at < usize::MAX,
    {
        let ghost options = self.options_of(set);
        let ghost want = crate::automaton::narrow(options, alive_set(alive), at as int, b);
        let mut out: u64 = 0;
        let mut any = false;
        proof {
            lemma_no_bits();
        }
        if let Some(v) = self.options(set) {
            let mut i: usize = 0;
            assert(alive_set(out) =~= want.intersect(Set::new(|k: int| k < 0)));
            while i < v.len()
                invariant
                    i <= v@.len() <= MAX_OPTIONS,
                    strings_of(*v) == options,
                    want == crate::automaton::narrow(options, alive_set(alive), at as int, b),
                    alive_set(out) == want.intersect(Set::new(|k: int| k < i)),
                    any ==> at < usize::MAX,
                    any ==> crate::automaton::some_alive(want),
                    !any ==> forall|k: int| 0 <= k < i ==> !want.contains(k),
                decreases v.len() - i,
            {
                let ghost before = out;
                assert(options[i as int] == v@[i as int]@);
                let hit = has_bit(alive, i) && v[i].len() > at && v[i][at] == b;
                assert(hit == want.contains(i as int));
                if hit {
                    out = set_bit(out, i);
                    any = true;
                }
                i += 1;
                assert(alive_set(out) =~= want.intersect(Set::new(|k: int| k < i)));
            }
            assert(alive_set(out) =~= want);
        } else {
            assert(alive_set(out) =~= want);
        }
        (out, any)
    }

    /// Keys that may legally come next at property index `from`, and whether
    /// there are any.
    #[verifier::loop_isolation(false)]
    fn keys_from(&self, node: usize, from: usize) -> (r: (u64, bool))
        requires
            self.valid(),
            node < self.nodes@.len(),
        ensures
            alive_set(r.0) == crate::automaton::keys_from(self.props_of(node as int), from as int),
            r.1 == crate::automaton::some_alive(crate::automaton::keys_from(self.props_of(node as int), from as int)),
    {
        let ghost props = self.props_of(node as int);
        let ghost want = crate::automaton::keys_from(props, from as int);
        assert(node_ok(self.nodes@[node as int], node as int));
        let mut alive: u64 = 0;
        proof {
            lemma_no_bits();
        }
        match &self.nodes[node] {
            Node::Object { required, .. } => {
                let mut i: usize = from;
                assert(alive_set(alive) =~= Set::new(|k: int| from <= k < i));
                while i < required.len()
                    invariant
                        from <= i,
                        from < required@.len() ==> i <= required@.len(),
                        from >= required@.len() ==> i == from,
                        required@.len() <= MAX_OPTIONS,
                        props.len() == required@.len(),
                        forall|k: int| 0 <= k < props.len() ==> (#[trigger] props[k]).required == required@[k],
                        forall|k: int| from <= k < i ==> !(#[trigger] props[k]).required,
                        want == crate::automaton::keys_from(props, from as int),
                        alive_set(alive) == Set::new(|k: int| from <= k < i),
                    decreases required.len() - i,
                {
                    alive = set_bit(alive, i);
                    let last = required[i];
                    i += 1;
                    assert(alive_set(alive) =~= Set::new(|k: int| from <= k < i));
                    assert(props[i - 1].required == last);
                    assert(want.contains(i - 1));
                    if last {
                        assert forall|k: int| want.contains(k) implies k < i by {
                            if k >= i {
                                assert(!props[i - 1].required);
                            }
                        }
                        assert(alive_set(alive) =~= want);
                        return (alive, true);
                    }
                }
                assert(alive_set(alive) =~= want);
                let any = from < required.len();
                proof {
                    if any {
                        assert(want.contains(from as int));
                    } else {
                        assert(forall|k: int| !want.contains(k));
                    }
                }
                (alive, any)
            },
            _ => {
                assert(props.len() == 0);
                assert(forall|k: int| !want.contains(k));
                assert(alive_set(alive) =~= want);
                (alive, false)
            },
        }
    }

    /// Whether `}` is legal here: every property still to come is optional.
    #[verifier::loop_isolation(false)]
    fn object_may_end(&self, node: usize, from: usize) -> (r: bool)
        requires
            self.valid(),
            node < self.nodes@.len(),
        ensures
            r == crate::automaton::may_end(self.props_of(node as int), from as int),
    {
        let ghost props = self.props_of(node as int);
        assert(node_ok(self.nodes@[node as int], node as int));
        match &self.nodes[node] {
            Node::Object { required, .. } => {
                let mut i: usize = from;
                while i < required.len()
                    invariant
                        from <= i,
                        props.len() == required@.len(),
                        forall|k: int| 0 <= k < props.len() ==> (#[trigger] props[k]).required == required@[k],
                        forall|k: int| from <= k < i && k < props.len() ==> !(#[trigger] props[k]).required,
                    decreases required.len() - i,
                {
                    if required[i] {
                        assert(props[i as int].required);
                        return false;
                    }
                    i += 1;
                }
                true
            },
            _ => true,
        }
    }

    /// The shape of the value under the key at index `key`.
    fn value_of(&self, node: usize, key: usize) -> (r: usize)
        requires
            self.valid(),
            node < self.nodes@.len(),
        ensures
            r < self.nodes@.len(),
            unfold(self.nodes@, r as int) == (if key < self.props_of(node as int).len() {
                self.props_of(node as int)[key as int].shape
            } else {
                Shape::Any
            }),
    {
        assert(node_ok(self.nodes@[node as int], node as int));
        match &self.nodes[node] {
            Node::Object { values, .. } => if key < values.len() {
                values[key]
            } else {
                ANY
            },
            _ => ANY,
        }
    }
}

impl Grammar {
    /// Inside a string, past the opening quote.
    fn string_byte(&self, m: &mut Machine, b: u8, escape: bool, hex: u8) -> (ok: bool)
        requires
            0 < old(m).len <= MAX_DEPTH,
            self.stack_ok(old(m).raw()),
            hex <= 4,
            old(m).raw().last() == (Frame::Str { escape, hex }),
        ensures
            self.stepped(
                *old(m),
                *final(m),
                ok,
                crate::automaton::string_step(self.stack_view(old(m).raw()), b, escape, hex as int),
            ),
    {
        if hex > 0 {
            let hexadecimal = (48 <= b && b <= 57) || (65 <= b && b <= 70) || (97 <= b && b <= 102);
            if !hexadecimal {
                return false;
            }
            self.replace(m, Frame::Str { escape: false, hex: hex - 1 });
            return true;
        }
        if escape {
            if b == QUOTE || b == BACKSLASH || b == 47 || b == 98 || b == 102 || b == 110 || b == 114 || b == 116 {
                self.replace(m, Frame::Str { escape: false, hex: 0 });
                return true;
            }
            if b == 117 {
                self.replace(m, Frame::Str { escape: false, hex: 4 });
                return true;
            }
            return false;
        }
        if b == QUOTE {
            self.close(m, None)
        } else if b == BACKSLASH {
            self.replace(m, Frame::Str { escape: true, hex: 0 });
            true
        } else {
            // Raw control bytes must be escaped in JSON.
            b >= 32
        }
    }

    /// Read one byte. `fuel` bounds how often it may be handed on.
    fn step(&self, m: &mut Machine, b: u8, fuel: usize) -> (ok: bool)
        requires
            self.valid(),
            old(m).len <= MAX_DEPTH,
            self.stack_ok(old(m).raw()),
        ensures
            self.stepped(
                *old(m),
                *final(m),
                ok,
                crate::automaton::step(self.stack_view(old(m).raw()), b, fuel as nat),
            ),
        decreases fuel, 3int,
    {
        if fuel == 0 {
            return false;
        }
        let ghost raw = m.raw();
        proof {
            if raw.len() > 0 {
                lemma_stack_pop(*self, raw);
                assert(self.frame_ok(raw.last()));
            }
        }
        // Whatever scalar is in progress takes the byte first.
        match m.top() {
            Frame::Str { escape, hex } => {
                return self.string_byte(m, b, escape, hex);
            },
            Frame::Num { state, integer } => {
                match state.feed(b, integer) {
                    Some(next) => {
                        self.replace(m, Frame::Num { state: next, integer });
                        return true;
                    },
                    // Not part of the number, so the number ends here, if it
                    // legally can, and this byte is a delimiter.
                    None => {
                        if !state.terminable() {
                            return false;
                        }
                        return self.close(m, None) && self.step(m, b, fuel - 1);
                    },
                }
            },
            Frame::Choice { set, alive, at } => {
                assert(self.frame_ok(Frame::Choice { set, alive: 0, at: 0 }));
                let (narrowed, any) = self.narrow(set, alive, at, b);
                if any {
                    self.replace(m, Frame::Choice { set, alive: narrowed, at: at + 1 });
                    return true;
                }
                match self.settled_option(set, alive, at) {
                    Some(i) => {
                        return self.close(m, Some(i)) && self.step(m, b, fuel - 1);
                    },
                    None => {
                        return false;
                    },
                }
            },
            _ => {},
        }
        // Between tokens, whitespace is always allowed.
        if b == 32 || b == 9 || b == 10 || b == 13 {
            return true;
        }
        self.structure(m, b, fuel)
    }

    /// Read a byte that is not whitespace, between scalars.
    fn structure(&self, m: &mut Machine, b: u8, fuel: usize) -> (ok: bool)
        requires
            self.valid(),
            old(m).len <= MAX_DEPTH,
            self.stack_ok(old(m).raw()),
            fuel > 0,
        ensures
            old(m).len > 0 ==> self.stepped(
                *old(m),
                *final(m),
                ok,
                crate::automaton::structure(self.stack_view(old(m).raw()), b, fuel as nat),
            ),
            old(m).len == 0 ==> *final(m) == *old(m) && !ok,
        decreases fuel, 2int,
    {
        proof {
            if m.raw().len() > 0 {
                lemma_stack_pop(*self, m.raw());
                assert(self.frame_ok(m.raw().last()));
            }
        }
        match m.top() {
            Frame::Root { node, started, .. } => {
                if started {
                    return false;
                }
                self.replace(m, Frame::Root { node, started: true, done: false });
                self.begin(m, node, b, fuel)
            },
            Frame::Obj { node, open, next, key, phase } => match phase {
                ObjPhase::KeyOrEnd | ObjPhase::Key => {
                    if b == QUOTE {
                        self.replace(m, Frame::Obj { node, open, next, key, phase: ObjPhase::InKey });
                        if open {
                            // No declared properties: any string is a key.
                            return self.grow(m, Frame::Str { escape: false, hex: 0 });
                        }
                        let (alive, any) = self.keys_from(node, next);
                        proof {
                            self.lemma_keys(node);
                        }
                        return self.choice(m, Alternatives::Keys(node), alive, any, b, fuel);
                    }
                    // Only an empty object may close here; after a comma a key
                    // has been promised.
                    if b == CLOSE_BRACE && phase == ObjPhase::KeyOrEnd && self.object_may_end(node, next) {
                        return self.close(m, None);
                    }
                    false
                },
                ObjPhase::AfterKey => {
                    if b == COLON {
                        self.replace(m, Frame::Obj { node, open, next, key, phase: ObjPhase::BeforeValue });
                        true
                    } else {
                        false
                    }
                },
                ObjPhase::BeforeValue => {
                    self.replace(m, Frame::Obj { node, open, next, key, phase: ObjPhase::InValue });
                    let shape: usize = self.value_of(node, key);
                    self.begin(m, shape, b, fuel)
                },
                ObjPhase::CommaOrEnd => {
                    if b == COMMA && (open || self.keys_from(node, next).1) {
                        self.replace(m, Frame::Obj { node, open, next, key, phase: ObjPhase::Key });
                        return true;
                    }
                    if b == CLOSE_BRACE && self.object_may_end(node, next) {
                        return self.close(m, None);
                    }
                    false
                },
                // A frame above is mid-key or mid-value; nothing reaches here.
                ObjPhase::InKey | ObjPhase::InValue => false,
            },
            Frame::Arr { items, count, min, max, phase } => match phase {
                ArrPhase::ValueOrEnd => {
                    if b == CLOSE_BRACKET && count >= min {
                        return self.close(m, None);
                    }
                    if count < max {
                        self.replace(m, Frame::Arr { items, count, min, max, phase: ArrPhase::InValue });
                        return self.begin(m, items, b, fuel);
                    }
                    false
                },
                ArrPhase::Value => {
                    if count < max {
                        self.replace(m, Frame::Arr { items, count, min, max, phase: ArrPhase::InValue });
                        return self.begin(m, items, b, fuel);
                    }
                    false
                },
                ArrPhase::CommaOrEnd => {
                    if b == COMMA && count < max {
                        self.replace(m, Frame::Arr { items, count, min, max, phase: ArrPhase::Value });
                        return true;
                    }
                    if b == CLOSE_BRACKET && count >= min {
                        return self.close(m, None);
                    }
                    false
                },
                ArrPhase::InValue => false,
            },
            _ => false,
        }
    }

    /// The names of an object's properties are the alternatives for its keys.
    proof fn lemma_keys(self, node: usize)
        requires
            self.valid(),
            node < self.nodes@.len(),
        ensures
            self.options_of(Alternatives::Keys(node)) == crate::automaton::key_options(self.props_of(node as int)),
    {
        assert(node_ok(self.nodes@[node as int], node as int));
        assert(self.options_of(Alternatives::Keys(node)) =~= crate::automaton::key_options(
            self.props_of(node as int),
        ));
    }

    /// Begin a number with the byte `b`.
    fn number(&self, m: &mut Machine, integer: bool, b: u8, fuel: usize) -> (ok: bool)
        requires
            self.valid(),
            old(m).len <= MAX_DEPTH,
            self.stack_ok(old(m).raw()),
            fuel > 0,
        ensures
            self.stepped(
                *old(m),
                *final(m),
                ok,
                crate::automaton::number(self.stack_view(old(m).raw()), integer, b, fuel as nat),
            ),
        decreases fuel, 0int,
    {
        self.grow(m, Frame::Num { state: Num::Lead, integer }) && self.step(m, b, fuel - 1)
    }

    /// Begin one of a fixed set of alternatives with the byte `b`.
    fn choice(&self, m: &mut Machine, set: Alternatives, alive: u64, any: bool, b: u8, fuel: usize) -> (ok: bool)
        requires
            self.valid(),
            old(m).len <= MAX_DEPTH,
            self.stack_ok(old(m).raw()),
            self.frame_ok(Frame::Choice { set, alive, at: 0 }),
            any == crate::automaton::some_alive(alive_set(alive)),
            fuel > 0,
        ensures
            self.stepped(
                *old(m),
                *final(m),
                ok,
                crate::automaton::choose_one(
                    self.stack_view(old(m).raw()),
                    self.options_of(set),
                    alive_set(alive),
                    b,
                    fuel as nat,
                ),
            ),
        decreases fuel, 0int,
    {
        any && self.grow(m, Frame::Choice { set, alive, at: 0 }) && self.step(m, b, fuel - 1)
    }

    /// Begin a value of shape `node`, whose first byte is `b`.
    fn begin(&self, m: &mut Machine, node: usize, b: u8, fuel: usize) -> (ok: bool)
        requires
            self.valid(),
            old(m).len <= MAX_DEPTH,
            self.stack_ok(old(m).raw()),
            node < self.nodes@.len(),
            fuel > 0,
        ensures
            self.stepped(
                *old(m),
                *final(m),
                ok,
                crate::automaton::begin(
                    self.stack_view(old(m).raw()),
                    unfold(self.nodes@, node as int),
                    b,
                    fuel as nat,
                ),
            ),
        decreases fuel, 1int,
    {
        assert(node_ok(self.nodes@[node as int], node as int));
        match &self.nodes[node] {
            Node::Any => {
                if b == OPEN_BRACE {
                    assert(self.props_of(ANY as int) == Seq::<Property>::empty());
                    self.grow(m, Frame::Obj { node: ANY, open: true, next: 0, key: 0, phase: ObjPhase::KeyOrEnd })
                } else if b == OPEN_BRACKET {
                    self.grow(
                        m,
                        Frame::Arr { items: ANY, count: 0, min: 0, max: u32::MAX, phase: ArrPhase::ValueOrEnd },
                    )
                } else if b == QUOTE {
                    self.grow(m, Frame::Str { escape: false, hex: 0 })
                } else if b == MINUS || (48 <= b && b <= 57) {
                    self.number(m, false, b, fuel)
                } else if b == 116 || b == 102 || b == 110 {
                    let alive: u64 = first_bits(3);
                    assert(alive_set(alive).contains(0));
                    self.choice(m, Alternatives::Words, alive, true, b, fuel)
                } else {
                    false
                }
            },
            Node::Object { keys, .. } => {
                b == OPEN_BRACE && self.grow(
                    m,
                    Frame::Obj { node, open: keys.len() == 0, next: 0, key: 0, phase: ObjPhase::KeyOrEnd },
                )
            },
            Node::Array { items, min, max } => {
                b == OPEN_BRACKET && self.grow(
                    m,
                    Frame::Arr { items: *items, count: 0, min: *min, max: *max, phase: ArrPhase::ValueOrEnd },
                )
            },
            Node::Str => b == QUOTE && self.grow(m, Frame::Str { escape: false, hex: 0 }),
            Node::Num { integer } => (b == MINUS || (48 <= b && b <= 57)) && self.number(m, *integer, b, fuel),
            Node::Bool => {
                let alive: u64 = first_bits(2);
                assert(alive_set(alive).contains(0));
                self.choice(m, Alternatives::Words, alive, true, b, fuel)
            },
            Node::Null => {
                proof {
                    lemma_no_bits();
                }
                let alive: u64 = set_bit(0, 2);
                assert(alive_set(alive) =~= Set::new(|i: int| i == 2));
                assert(alive_set(alive).contains(2));
                self.choice(m, Alternatives::Words, alive, true, b, fuel)
            },
            Node::Enum(vals) => {
                let alive: u64 = first_bits(vals.len());
                proof {
                    if vals@.len() > 0 {
                        assert(alive_set(alive).contains(0));
                    }
                    assert(alive_set(alive) =~= Set::new(|i: int| 0 <= i < strings_of(*vals).len()));
                }
                self.choice(m, Alternatives::Enum(node), alive, vals.len() > 0, b, fuel)
            },
        }
    }

    /// The state before the first byte.
    pub fn start(&self) -> (m: Machine)
        requires
            self.valid(),
        ensures
            self.owns(m),
            self.state(m) == crate::automaton::started(self.shape()),
    {
        let mut m = Machine { stack: [Frame::Empty; 32], len: 0, failed: false };
        let f = Frame::Root { node: self.root, started: false, done: false };
        let _ = m.push(f);
        assert(self.stack_view(m.raw()) =~= seq![self.frame_view(f)]);
        m
    }

    /// Feed one byte. A machine that has failed stays failed.
    pub fn feed(&self, m: &mut Machine, b: u8) -> (ok: bool)
        requires
            self.valid(),
            self.owns(*old(m)),
        ensures
            self.owns(*final(m)),
            self.state(*final(m)) == crate::automaton::fed(self.state(*old(m)), b),
            ok == (self.state(*final(m)) is Some),
    {
        if m.failed {
            return false;
        }
        if !self.step(m, b, MAX_HANDOVERS) {
            m.failed = true;
            return false;
        }
        true
    }

    /// Feed a whole token's bytes, stopping at the first that cannot follow.
    /// What has been fed so far is accepted where `m` had not failed before.
    pub fn feed_all(&self, m: &mut Machine, bytes: &[u8]) -> (ok: bool)
        requires
            self.valid(),
            self.owns(*old(m)),
        ensures
            self.owns(*final(m)),
            self.state(*final(m)) == crate::automaton::fed_all(self.state(*old(m)), bytes@),
            ok == (bytes@.len() == 0 || self.state(*final(m)) is Some),
    {
        let ghost s0 = self.state(*m);
        let mut i: usize = 0;
        assert(bytes@.subrange(0, 0) =~= Seq::<u8>::empty());
        while i < bytes.len()
            invariant
                self.valid(),
                self.owns(*m),
                i <= bytes@.len(),
                s0 == self.state(*old(m)),
                self.state(*m) == crate::automaton::fed_all(s0, bytes@.subrange(0, i as int)),
                i > 0 ==> self.state(*m) is Some,
            decreases bytes.len() - i,
        {
            let ghost prefix = bytes@.subrange(0, i + 1);
            assert(prefix.drop_last() =~= bytes@.subrange(0, i as int));
            let ok = self.feed(m, bytes[i]);
            i += 1;
            if !ok {
                proof {
                    crate::automaton::law_failure_is_final(bytes@.subrange(i as int, bytes@.len() as int));
                    crate::automaton::law_split(s0, prefix, bytes@.subrange(i as int, bytes@.len() as int));
                    assert(prefix + bytes@.subrange(i as int, bytes@.len() as int) =~= bytes@);
                }
                return false;
            }
        }
        assert(bytes@.subrange(0, bytes@.len() as int) =~= bytes@);
        true
    }

    /// Close any scalar that a delimiter would have closed. A number or a
    /// numeric enum member is only known to be finished when something that
    /// cannot extend it arrives, including the end of the output.
    fn settle(&self, m: &mut Machine) -> (ok: bool)
        requires
            self.valid(),
            old(m).len <= MAX_DEPTH,
            self.stack_ok(old(m).raw()),
        ensures
            self.stepped(*old(m), *final(m), ok, crate::automaton::settle(self.stack_view(old(m).raw()))),
    {
        let ghost want = crate::automaton::settle(self.stack_view(m.raw()));
        loop
            invariant
                self.valid(),
                m.len <= MAX_DEPTH,
                m.failed == old(m).failed,
                self.stack_ok(m.raw()),
                want == crate::automaton::settle(self.stack_view(old(m).raw())),
                crate::automaton::settle(self.stack_view(m.raw())) == want,
            decreases m.len,
        {
            proof {
                if m.raw().len() > 0 {
                    lemma_stack_pop(*self, m.raw());
                    assert(self.frame_ok(m.raw().last()));
                }
            }
            match m.top() {
                Frame::Num { state, .. } => {
                    if !state.terminable() {
                        return false;
                    }
                    if !self.close(m, None) {
                        return false;
                    }
                },
                Frame::Choice { set, alive, at } => {
                    assert(self.frame_ok(Frame::Choice { set, alive: 0, at: 0 }));
                    match self.settled_option(set, alive, at) {
                        Some(i) => {
                            if !self.close(m, Some(i)) {
                                return false;
                            }
                        },
                        None => {
                            return false;
                        },
                    }
                },
                _ => {
                    return true;
                },
            }
        }
    }

    /// Whether the document is a complete value and could stop here.
    pub fn complete(&self, m: &Machine) -> (r: bool)
        requires
            self.valid(),
            self.owns(*m),
        ensures
            r == (self.state(*m) matches Some(s) && crate::automaton::is_complete(s)),
    {
        if m.failed {
            return false;
        }
        let mut c = *m;
        if !self.settle(&mut c) {
            return false;
        }
        proof {
            if c.raw().len() > 0 {
                lemma_stack_pop(*self, c.raw());
                assert(self.frame_ok(c.raw().last()));
            }
        }
        matches!(c.top(), Frame::Root { done: true, .. })
    }
}

/// The strings among the first `n` elements.
pub open spec fn strings_among(v: Seq<JsonV>, n: nat) -> Seq<Seq<char>>
    decreases n,
{
    if n == 0 || n > v.len() {
        Seq::empty()
    } else {
        let before = strings_among(v, (n - 1) as nat);
        match v[n - 1].as_str() {
            Some(s) => before.push(s),
            None => before,
        }
    }
}

/// The names that a schema lists as required.
pub open spec fn required_of(s: JsonV) -> Seq<Seq<char>> {
    match s.field("required"@).as_array() {
        Some(v) => strings_among(v, v.len()),
        None => Seq::empty(),
    }
}

/// The first `n` required names, as far as they are declared.
pub open spec fn declared(props: Seq<(Seq<char>, JsonV)>, req: Seq<Seq<char>>, n: nat) -> Seq<Seq<char>>
    decreases n,
{
    if n == 0 || n > req.len() {
        Seq::empty()
    } else {
        let before = declared(props, req, (n - 1) as nat);
        if entry_from(props, req[n - 1], 0) is Some {
            before.push(req[n - 1])
        } else {
            before
        }
    }
}

/// The names among the first `n` declared ones that are not required.
pub open spec fn optional(props: Seq<(Seq<char>, JsonV)>, req: Seq<Seq<char>>, n: nat) -> Seq<Seq<char>>
    decreases n,
{
    if n == 0 || n > props.len() {
        Seq::empty()
    } else {
        let before = optional(props, req, (n - 1) as nat);
        if req.contains(props[n - 1].0) {
            before
        } else {
            before.push(props[n - 1].0)
        }
    }
}

/// The order in which properties are written: those required, in the order the
/// schema names them, and then the others in the map's own order.
pub open spec fn property_order(props: Seq<(Seq<char>, JsonV)>, req: Seq<Seq<char>>) -> Seq<Seq<char>> {
    declared(props, req, req.len()) + optional(props, req, props.len())
}

/// The bytes of the texts of some values.
pub open spec fn encodings(v: Seq<JsonV>) -> Seq<Seq<u8>> {
    Seq::new(v.len(), |i: int| encode_utf8(text_of(v[i])))
}

/// The number of array elements that a keyword gives, cut to 32 bits.
pub open spec fn bound(v: JsonV, default: u32) -> u32 {
    match v.as_u64() {
        Some(n) => n as u32,
        None => default,
    }
}

/// The shape that a schema asks for, or why it asks for none. Keywords that
/// constrain no shape are permitted and ignored.
pub open spec fn shape_of(s: JsonV, depth: nat) -> Result<Shape, Seq<char>>
    decreases 33 - depth, 1nat, 0nat,
{
    if depth > MAX_DEPTH {
        Err("schema nests deeper than 32 levels"@)
    } else if s.get("const"@) is Some {
        Ok(Shape::Enum(seq![encode_utf8(text_of(s.field("const"@)))]))
    } else if s.field("enum"@).as_array() is Some {
        let vals = s.field("enum"@).as_array()->0;
        if vals.len() == 0 {
            Err("enum with no members permits nothing"@)
        } else if vals.len() > MAX_OPTIONS {
            Err("enum has "@ + decimal_of(vals.len()) + " members, the limit is 64"@)
        } else {
            Ok(Shape::Enum(encodings(vals)))
        }
    } else {
        match s.field("type"@).as_str() {
            None => Ok(Shape::Any),
            Some(ty) => if ty == "string"@ {
                Ok(Shape::Str)
            } else if ty == "integer"@ {
                Ok(Shape::Num { integer: true })
            } else if ty == "number"@ {
                Ok(Shape::Num { integer: false })
            } else if ty == "boolean"@ {
                Ok(Shape::Bool)
            } else if ty == "null"@ {
                Ok(Shape::Null)
            } else if ty == "array"@ {
                let items = match s.get("items"@) {
                    Some(i) => shape_of(i, depth + 1),
                    None => Ok(Shape::Any),
                };
                let min = bound(s.field("minItems"@), 0);
                let max = bound(s.field("maxItems"@), u32::MAX);
                match items {
                    Err(e) => Err(e),
                    Ok(shape) => if max < min {
                        Err(
                            "maxItems "@ + decimal_of(max as nat) + " is below minItems "@ + decimal_of(min as nat),
                        )
                    } else {
                        Ok(Shape::Array { items: Box::new(shape), min, max })
                    },
                }
            } else if ty == "object"@ {
                match s.field("properties"@).as_object() {
                    None => Ok(Shape::Object(Seq::empty())),
                    Some(props) => {
                        let req = required_of(s);
                        let order = property_order(props, req);
                        if order.len() > MAX_OPTIONS {
                            Err("object has "@ + decimal_of(order.len()) + " properties, the limit is 64"@)
                        } else {
                            match properties_of(props, req, order, depth, order.len()) {
                                Err(e) => Err(e),
                                Ok(p) => Ok(Shape::Object(p)),
                            }
                        }
                    },
                }
            } else {
                Err("unsupported schema type: "@ + ty)
            },
        }
    }
}

/// The first `k` properties in the given order, or the first error among them.
pub open spec fn properties_of(
    props: Seq<(Seq<char>, JsonV)>,
    req: Seq<Seq<char>>,
    order: Seq<Seq<char>>,
    depth: nat,
    k: nat,
) -> Result<Seq<Property>, Seq<char>>
    decreases 33 - depth, 0nat, k,
{
    if k == 0 || k > order.len() || depth > MAX_DEPTH {
        Ok(Seq::empty())
    } else {
        match properties_of(props, req, order, depth, (k - 1) as nat) {
            Err(e) => Err(e),
            Ok(before) => {
                let name = order[k - 1];
                match shape_of(JsonV::Obj(props).field(name), depth + 1) {
                    Err(e) => Err(e),
                    Ok(shape) => Ok(
                        before.push(
                            Property { key: encode_utf8(quoted(name)), shape, required: req.contains(name) },
                        ),
                    ),
                }
            },
        }
    }
}

/// Whether `name` is among `names`.
fn listed(names: &Vec<&str>, name: &str) -> (r: bool)
    ensures
        r == views(names@).contains(name@),
{
    let mut i: usize = 0;
    while i < names.len()
        invariant
            i <= names@.len(),
            forall|k: int| 0 <= k < i ==> views(names@)[k] != name@,
        decreases names.len() - i,
    {
        if same(names[i], name) {
            assert(views(names@)[i as int] == name@);
            return true;
        }
        i += 1;
    }
    false
}

/// The texts of some strings.
pub open spec fn views(v: Seq<&str>) -> Seq<Seq<char>> {
    Seq::new(v.len(), |i: int| v[i]@)
}

/// The names that a schema lists as required.
fn required_names(s: &Json) -> (r: Vec<&str>)
    ensures
        views(r@) == required_of(s@),
{
    let mut out: Vec<&str> = Vec::new();
    let list = s.field("required");
    if let Some(v) = list.as_array() {
        let ghost vv = list@->Arr_0;
        let mut i: usize = 0;
        assert(views(out@) =~= strings_among(vv, 0));
        while i < v.len()
            invariant
                i <= v@.len(),
                list@ == JsonV::Arr(vv),
                *list == Json::Arr(*v),
                views(out@) == strings_among(vv, i as nat),
            decreases v.len() - i,
        {
            assert(vv[i as int] == v@[i as int]@);
            if let Some(t) = v[i].as_str() {
                let ghost before = out@;
                out.push(t);
                assert(views(out@) =~= views(before).push(t@));
            }
            i += 1;
        }
    }
    assert(views(out@) =~= required_of(s@));
    out
}

/// The order in which properties are written.
fn ordered<'a>(schema: &'a Json, props: &'a Vec<(String, Json)>, req: &Vec<&'a str>) -> (r: Vec<&'a str>)
    requires
        *schema == Json::Obj(*props),
    ensures
        views(r@) == property_order(schema@->Obj_0, views(req@)),
{
    let ghost m = schema@->Obj_0;
    let ghost rv = views(req@);
    let mut out: Vec<&'a str> = Vec::new();
    let mut i: usize = 0;
    assert(views(out@) =~= declared(m, rv, 0));
    while i < req.len()
        invariant
            i <= req@.len(),
            schema@ == JsonV::Obj(m),
            rv == views(req@),
            views(out@) == declared(m, rv, i as nat),
        decreases req.len() - i,
    {
        let name: &'a str = req[i];
        assert(rv[i as int] == name@);
        if schema.get(name).is_some() {
            let ghost before = out@;
            out.push(name);
            assert(views(out@) =~= views(before).push(name@));
        }
        i += 1;
    }
    let ghost head = views(out@);
    let mut j: usize = 0;
    assert(views(out@) =~= head + optional(m, rv, 0));
    while j < props.len()
        invariant
            j <= props@.len(),
            *schema == Json::Obj(*props),
            schema@ == JsonV::Obj(m),
            m.len() == props@.len(),
            rv == views(req@),
            views(out@) == head + optional(m, rv, j as nat),
        decreases props.len() - j,
    {
        assert(m[j as int] == (props@[j as int].0@, props@[j as int].1@));
        let name: &'a str = props[j].0.as_str();
        if !listed(req, name) {
            let ghost before = out@;
            out.push(name);
            assert(views(out@) =~= views(before).push(name@));
        }
        j += 1;
        assert(views(out@) =~= head + optional(m, rv, j as nat));
    }
    out
}

/// Node `n` added at the end: what is known of the grammar stays known.
fn add_node(nodes: &mut Vec<Node>, n: Node) -> (id: usize)
    requires
        nodes_ok(old(nodes)@),
        node_ok(n, old(nodes)@.len() as int),
    ensures
        nodes_ok(final(nodes)@),
        final(nodes)@ == old(nodes)@.push(n),
        id == old(nodes)@.len(),
{
    nodes.push(n);
    nodes.len() - 1
}

/// Add the nodes for a schema, and name the one that stands for it.
#[verifier::spinoff_prover]
#[verifier::rlimit(40)]
fn compile(nodes: &mut Vec<Node>, s: &Json, depth: usize) -> (r: Result<usize, String>)
    requires
        nodes_ok(old(nodes)@),
        depth <= MAX_DEPTH + 1,
    ensures
        nodes_ok(final(nodes)@),
        old(nodes)@.is_prefix_of(final(nodes)@),
        match r {
            Ok(id) => id < final(nodes)@.len() && shape_of(s@, depth as nat) == Ok::<Shape, Seq<char>>(
                unfold(final(nodes)@, id as int),
            ),
            Err(e) => shape_of(s@, depth as nat) == Err::<Shape, Seq<char>>(e@),
        },
    decreases MAX_DEPTH + 1 - depth, 1int,
{
    if depth > MAX_DEPTH {
        return Err("schema nests deeper than 32 levels".to_owned());
    }
    // `const` and `enum` pin the value regardless of any declared type.
    if let Some(c) = s.get("const") {
        let mut members: Vec<Vec<u8>> = Vec::new();
        members.push(bytes_of(c.text().as_str()));
        assert(strings_of(members) =~= seq![encode_utf8(text_of(c@))]);
        return Ok(add_node(nodes, Node::Enum(members)));
    }
    let listing = s.field("enum");
    if let Some(vals) = listing.as_array() {
        if vals.len() == 0 {
            return Err("enum with no members permits nothing".to_owned());
        }
        if vals.len() > MAX_OPTIONS {
            let n = decimal(vals.len() as u64);
            return Err(join3("enum has ", n.as_str(), " members, the limit is 64"));
        }
        let members = encoded(listing, vals);
        return Ok(add_node(nodes, Node::Enum(members)));
    }
    // A union of types is not modelled; permitting anything is the honest
    // fallback, and still constrains everything nested inside.
    let ty: &str = match s.field("type").as_str() {
        Some(t) => t,
        None => {
            return Ok(ANY);
        },
    };
    if same(ty, "string") {
        Ok(add_node(nodes, Node::Str))
    } else if same(ty, "integer") {
        Ok(add_node(nodes, Node::Num { integer: true }))
    } else if same(ty, "number") {
        Ok(add_node(nodes, Node::Num { integer: false }))
    } else if same(ty, "boolean") {
        Ok(add_node(nodes, Node::Bool))
    } else if same(ty, "null") {
        Ok(add_node(nodes, Node::Null))
    } else if same(ty, "array") {
        let items: usize = match s.get("items") {
            Some(i) => match compile(nodes, i, depth + 1) {
                Ok(id) => id,
                Err(e) => {
                    return Err(e);
                },
            },
            None => ANY,
        };
        let min: u32 = match s.field("minItems").as_u64() {
            Some(n) => n as u32,
            None => 0,
        };
        let max: u32 = match s.field("maxItems").as_u64() {
            Some(n) => n as u32,
            None => u32::MAX,
        };
        if max < min {
            let a = decimal(max as u64);
            let b = decimal(min as u64);
            let head = join3("maxItems ", a.as_str(), " is below minItems ");
            return Err(join(head.as_str(), b.as_str()));
        }
        let ghost before = nodes@;
        let id: usize = add_node(nodes, Node::Array { items, min, max });
        proof {
            assert(before.is_prefix_of(nodes@));
            lemma_unfold_extends(before, nodes@, items as int);
        }
        Ok(id)
    } else if same(ty, "object") {
        let declared_props = s.field("properties");
        let props = match declared_props.as_object() {
            Some(p) => p,
            None => {
                // An object with no declared properties constrains only that
                // it is an object; keys and values are free.
                let id: usize = add_node(
                    nodes,
                    Node::Object { keys: Vec::new(), values: Vec::new(), required: Vec::new() },
                );
                assert(unfold(nodes@, id as int)->Object_0 =~= Seq::<Property>::empty());
                return Ok(id);
            },
        };
        compile_object(nodes, s, declared_props, props, depth)
    } else {
        Err(join("unsupported schema type: ", ty))
    }
}

/// The bytes of the texts of some values.
fn encoded(listing: &Json, vals: &Vec<Json>) -> (members: Vec<Vec<u8>>)
    requires
        *listing == Json::Arr(*vals),
    ensures
        strings_of(members) == encodings(listing@->Arr_0),
        members@.len() == vals@.len(),
{
    let ghost vv = listing@->Arr_0;
    let mut members: Vec<Vec<u8>> = Vec::new();
    let mut i: usize = 0;
    while i < vals.len()
        invariant
            i <= vals@.len(),
            *listing == Json::Arr(*vals),
            listing@ == JsonV::Arr(vv),
            vv.len() == vals@.len(),
            members@.len() == i,
            forall|k: int| 0 <= k < i ==> (#[trigger] members@[k])@ == encode_utf8(text_of(vv[k])),
        decreases vals.len() - i,
    {
        assert(vv[i as int] == vals@[i as int]@);
        members.push(bytes_of(vals[i].text().as_str()));
        i += 1;
    }
    assert(strings_of(members) =~= encodings(vv));
    members
}

/// Add the nodes for an object's properties, and then the object's own.
#[verifier::spinoff_prover]
#[verifier::rlimit(60)]
fn compile_object(nodes: &mut Vec<Node>, s: &Json, listing: &Json, props: &Vec<(String, Json)>, depth: usize) -> (r:
    Result<usize, String>)
    requires
        nodes_ok(old(nodes)@),
        depth <= MAX_DEPTH,
        *listing == Json::Obj(*props),
    ensures
        nodes_ok(final(nodes)@),
        old(nodes)@.is_prefix_of(final(nodes)@),
        ({
            let req = required_of(s@);
            let order = property_order(listing@->Obj_0, req);
            let want = properties_of(listing@->Obj_0, req, order, depth as nat, order.len());
            match r {
                Ok(id) => order.len() <= MAX_OPTIONS && id < final(nodes)@.len() && want is Ok && unfold(
                    final(nodes)@,
                    id as int,
                ) == Shape::Object(want->Ok_0),
                Err(e) => if order.len() > MAX_OPTIONS {
                    e@ == "object has "@ + decimal_of(order.len()) + " properties, the limit is 64"@
                } else {
                    want == Err::<Seq<Property>, Seq<char>>(e@)
                },
            }
        }),
    decreases MAX_DEPTH + 1 - depth, 0int,
{
    let ghost m = listing@->Obj_0;
    let ghost req_v = required_of(s@);
    let ghost order_v = property_order(m, req_v);
    let req = required_names(s);
    let order = ordered(listing, props, &req);
    if order.len() > MAX_OPTIONS {
        let n = decimal(order.len() as u64);
        return Err(join3("object has ", n.as_str(), " properties, the limit is 64"));
    }
    let mut keys: Vec<Vec<u8>> = Vec::new();
    let mut values: Vec<usize> = Vec::new();
    let mut required: Vec<bool> = Vec::new();
    let mut k: usize = 0;
    let ghost start = nodes@;
    let ghost mut done: Seq<Property> = Seq::empty();
    while k < order.len()
        invariant
            k <= order@.len() <= MAX_OPTIONS,
            depth <= MAX_DEPTH,
            nodes_ok(nodes@),
            start == old(nodes)@,
            start.is_prefix_of(nodes@),
            listing@ == JsonV::Obj(m),
            views(req@) == req_v,
            views(order@) == order_v,
            properties_of(m, req_v, order_v, depth as nat, k as nat) == Ok::<Seq<Property>, Seq<char>>(done),
            done.len() == k,
            keys@.len() == k,
            values@.len() == k,
            required@.len() == k,
            forall|j: int| 0 <= j < k ==> (#[trigger] keys@[j])@ == done[j].key,
            forall|j: int| 0 <= j < k ==> #[trigger] required@[j] == done[j].required,
            forall|j: int| 0 <= j < k ==> (#[trigger] values@[j]) < nodes@.len(),
            forall|j: int| 0 <= j < k ==> unfold(nodes@, #[trigger] values@[j] as int) == done[j].shape,
            order_v == property_order(m, req_v),
            req_v == required_of(s@),
            m == listing@->Obj_0,
        decreases order.len() - k,
    {
        let name: &str = order[k];
        assert(order_v[k as int] == name@);
        let ghost before = nodes@;
        let ghost full = properties_of(m, req_v, order_v, depth as nat, order_v.len());
        let value = listing.field(name);
        match compile(nodes, value, depth + 1) {
            Ok(id) => {
                proof {
                    assert forall|j: int| 0 <= j < k implies unfold(nodes@, #[trigger] values@[j] as int)
                        == done[j].shape by {
                        lemma_unfold_extends(before, nodes@, values@[j] as int);
                    }
                    done = done.push(
                        Property {
                            key: encode_utf8(quoted(name@)),
                            shape: unfold(nodes@, id as int),
                            required: req_v.contains(name@),
                        },
                    );
                }
                keys.push(bytes_of(quote(name).as_str()));
                values.push(id);
                required.push(listed(&req, name));
            },
            Err(e) => {
                proof {
                    lemma_first_error(m, req_v, order_v, depth as nat, (k + 1) as nat, order_v.len());
                }
                return Err(e);
            },
        }
        k += 1;
    }
    assert(views(order@).len() == order@.len());
    let ghost before = nodes@;
    let ghost keys_v = keys@;
    let ghost values_v = values@;
    let ghost required_v = required@;
    let id: usize = add_node(nodes, Node::Object { keys, values, required });
    proof {
        assert(nodes@[id as int] == (Node::Object { keys, values, required }));
        assert(before.is_prefix_of(nodes@));
        assert forall|j: int| 0 <= j < done.len() implies unfold(nodes@, values_v[j] as int) == done[j].shape by {
            lemma_unfold_extends(before, nodes@, values_v[j] as int);
        }
        assert(unfold(nodes@, id as int)->Object_0 =~= done);
    }
    Ok(id)
}

/// An error among the first properties is the error of all of them.
proof fn lemma_first_error(
    props: Seq<(Seq<char>, JsonV)>,
    req: Seq<Seq<char>>,
    order: Seq<Seq<char>>,
    depth: nat,
    k: nat,
    n: nat,
)
    requires
        k <= n <= order.len(),
        depth <= MAX_DEPTH,
        properties_of(props, req, order, depth, k) is Err,
    ensures
        properties_of(props, req, order, depth, n) == properties_of(props, req, order, depth, k),
    decreases n,
{
    if k < n {
        lemma_first_error(props, req, order, depth, k, (n - 1) as nat);
    }
}

impl Grammar {
    /// Any syntactically valid JSON document.
    pub fn json() -> (g: Grammar)
        ensures
            g.valid(),
            g.shape() == Shape::Any,
    {
        let mut nodes: Vec<Node> = Vec::new();
        nodes.push(Node::Any);
        Grammar { nodes, root: ANY, words: word_bytes() }
    }

    /// Compile a JSON Schema.
    ///
    /// The supported subset is the part that constrains shape: `type`,
    /// `properties`, `required`, `items`, `minItems`, `maxItems`, `enum` and
    /// `const`. Anything else is permissive rather than an error, so a schema
    /// carrying documentation, `$id`s or validation keywords the engine does not
    /// model still constrains everything it can.
    ///
    /// Properties are emitted in a fixed order, those named in `required` first,
    /// in that order, then the remainder in the map's order, because a
    /// deterministic order is what lets the automaton stay deterministic.
    /// Optional properties may be skipped, but not reordered. A parsed document
    /// has its maps sorted by key; one built by hand is taken in the order it has.
    pub fn from_schema(schema: &Json) -> (r: Result<Grammar, String>)
        ensures
            match r {
                Ok(g) => g.valid() && shape_of(schema@, 0) == Ok::<Shape, Seq<char>>(g.shape()),
                Err(e) => shape_of(schema@, 0) == Err::<Shape, Seq<char>>(e@),
            },
    {
        let mut nodes: Vec<Node> = Vec::new();
        nodes.push(Node::Any);
        match compile(&mut nodes, schema, 0) {
            Ok(root) => Ok(Grammar { nodes, root, words: word_bytes() }),
            Err(e) => Err(e),
        }
    }
}

/// `true`, `false` and `null`, as bytes.
fn word_bytes() -> (r: Vec<Vec<u8>>)
    ensures
        strings_of(r) == crate::automaton::words(),
{
    let r: Vec<Vec<u8>> = vec![vec![116, 114, 117, 101], vec![102, 97, 108, 115, 101], vec![110, 117, 108, 108]];
    assert(r@[0]@ =~= crate::automaton::words()[0]);
    assert(r@[1]@ =~= crate::automaton::words()[1]);
    assert(r@[2]@ =~= crate::automaton::words()[2]);
    assert(strings_of(r) =~= crate::automaton::words());
    r
}

// ------------------------------------------------------------------- the guide

/// A grammar bound to a vocabulary: says which tokens may come next, and tracks
/// what has been said.
pub struct Guide {
    grammar: Grammar,
    /// Raw bytes each token stands for. Empty for control tokens, which carry no
    /// document bytes and therefore can never be emitted under a constraint.
    /// Ids that are not listed carry none.
    bytes: HashMap<u64, Vec<u8>>,
    /// One more than the largest id.
    size: usize,
    machine: Machine,
}

/// What a [`Guide`] holds.
pub struct GuideV {
    pub bytes: Seq<Seq<u8>>,
    pub state: Option<Seq<FrameV>>,
}

/// The document bytes that each token of a vocabulary stands for.
pub open spec fn vocabulary_bytes(t: TokenizerV) -> Seq<Seq<u8>> {
    Seq::new(
        t.tokens.len(),
        |i: int|
            if t.special[i] {
                Seq::empty()
            } else {
                t.token_bytes(i as u32)
            },
    )
}

impl GuideV {
    /// Whether a token carries document bytes.
    pub open spec fn speaks(self, id: int) -> bool {
        0 <= id < self.bytes.len() && self.bytes[id].len() > 0
    }

    /// The state after a token that carries document bytes.
    pub open spec fn after(self, id: int) -> Option<Seq<FrameV>> {
        crate::automaton::fed_all(self.state, self.bytes[id])
    }

    /// Whether a token may come next.
    pub open spec fn allows(self, id: int) -> bool {
        self.speaks(id) && self.after(id) is Some
    }

    /// Whether what has been emitted is a complete document.
    pub open spec fn complete(self) -> bool {
        self.state matches Some(s) && crate::automaton::is_complete(s)
    }
}

/// How many of the first `n` are set.
pub open spec fn count_set(v: Seq<bool>, n: nat) -> nat
    decreases n,
{
    if n == 0 || n > v.len() {
        0
    } else {
        count_set(v, (n - 1) as nat) + (if v[n - 1] { 1nat } else { 0nat })
    }
}

/// The bytes of every id, where those that are not listed have none.
spec fn bytes_by_id(m: Map<u64, Vec<u8>>, size: nat) -> Seq<Seq<u8>> {
    Seq::new(
        size,
        |i: int|
            if i <= u32::MAX && m.contains_key(i as u64) {
                m[i as u64]@
            } else {
                Seq::empty()
            },
    )
}

impl View for Guide {
    type V = GuideV;

    closed spec fn view(&self) -> GuideV {
        GuideV { bytes: bytes_by_id(self.bytes@, self.size as nat), state: self.grammar.state(self.machine) }
    }
}

impl Guide {
    pub closed spec fn valid(self) -> bool {
        self.grammar.valid() && self.grammar.owns(self.machine)
    }

    pub fn new(grammar: Grammar, tok: &Tokenizer) -> (g: Guide)
        requires
            grammar.valid(),
            tok.valid(),
        ensures
            g.valid(),
            g@.bytes == vocabulary_bytes(tok@),
            g@.state == crate::automaton::started(grammar.shape()),
    {
        broadcast use vstd::std_specs::hash::group_hash_axioms;

        let listing: &Listing = tok.listing();
        let ghost v = vocabulary_bytes(tok@);
        proof {
            listing.lemma_entries();
        }
        let mut bytes: HashMap<u64, Vec<u8>> = HashMap::new();
        let mut k: usize = 0;
        while k < listing.len()
            invariant
                k <= listing.count(),
                tok.valid(),
                listing.valid(),
                tok@.tokens == listing.texts(),
                tok@.special == listing.specials(),
                v == vocabulary_bytes(tok@),
                forall|j: int| 0 <= j < k ==> bytes@.contains_key(#[trigger] listing.id_at(j) as u64),
                forall|i: u64| #[trigger] bytes@.contains_key(i) ==> i < v.len() && bytes@[i]@ == v[i as int],
            decreases listing.count() - k,
        {
            proof {
                listing.lemma_entries();
            }
            let id: u32 = listing.id(k);
            assert(listing.entry(id as int) is Some);
            let mut b: Vec<u8> = Vec::new();
            if !tok.is_special(id) {
                let one: Vec<u32> = vec![id];
                tok.decode_bytes(one.as_slice(), &mut b);
                proof {
                    reveal_with_fuel(TokenizerV::bytes_of, 2);
                    assert(one@.drop_last() =~= Seq::<u32>::empty());
                    assert(b@ =~= tok@.token_bytes(id));
                }
            }
            assert(b@ =~= v[id as int]);
            bytes.insert(id as u64, b);
            k += 1;
        }
        let size: usize = tok.vocab_size();
        proof {
            assert forall|i: int| 0 <= i < v.len() implies bytes_by_id(bytes@, size as nat)[i] == v[i] by {
                if listing.entry(i) is Some {
                    let j = choose|j: int| 0 <= j < listing.count() && #[trigger] listing.id_at(j) == i;
                    assert(bytes@.contains_key(listing.id_at(j) as u64));
                } else {
                    lemma_no_text(tok@, i as u32);
                    assert(tok@.token_bytes(i as u32) =~= Seq::<u8>::empty());
                }
            }
            assert(bytes_by_id(bytes@, size as nat) =~= v);
        }
        let machine = grammar.start();
        Guide { grammar, bytes, size, machine }
    }

    /// The bytes that a token stands for.
    fn bytes_of(&self, id: usize) -> (r: Option<&Vec<u8>>)
        ensures
            match r {
                Some(b) => self@.speaks(id as int) && b@ == self@.bytes[id as int],
                None => !self@.speaks(id as int),
            },
    {
        broadcast use vstd::std_specs::hash::group_hash_axioms;

        if id >= self.size || id as u64 > u32::MAX as u64 {
            return None;
        }
        match self.bytes.get(&(id as u64)) {
            Some(b) => if b.len() > 0 {
                Some(b)
            } else {
                None
            },
            None => None,
        }
    }

    /// Which of the first `n` tokens may come next, and how many there are.
    /// The others are those whose logits a sampler must set to negative
    /// infinity.
    pub fn mask(&self, n: usize) -> (r: (Vec<bool>, usize))
        requires
            self.valid(),
        ensures
            r.0@ == Seq::new(n as nat, |id: int| self@.allows(id)),
            r.1 == count_set(r.0@, n as nat),
    {
        let mut ok: Vec<bool> = Vec::new();
        let mut allowed: usize = 0;
        let mut id: usize = 0;
        while id < n
            invariant
                id <= n,
                self.valid(),
                ok@ == Seq::new(id as nat, |k: int| self@.allows(k)),
                allowed == count_set(ok@, id as nat),
                allowed <= id,
            decreases n - id,
        {
            let ghost before = ok@;
            let fits = match self.bytes_of(id) {
                Some(b) => {
                    let mut scratch = self.machine;
                    self.grammar.feed_all(&mut scratch, b.as_slice())
                },
                None => false,
            };
            assert(fits == self@.allows(id as int));
            ok.push(fits);
            proof {
                lemma_count_push(before, fits, id as nat);
            }
            if fits {
                allowed += 1;
            }
            id += 1;
            assert(ok@ =~= Seq::new(id as nat, |k: int| self@.allows(k)));
        }
        (ok, allowed)
    }

    /// Commit a token. False means it did not fit, which a masked sampler
    /// cannot produce.
    pub fn accept(&mut self, id: u32) -> (ok: bool)
        requires
            old(self).valid(),
        ensures
            final(self).valid(),
            ok == old(self)@.allows(id as int),
            final(self)@.bytes == old(self)@.bytes,
            final(self)@.state == (if old(self)@.speaks(id as int) {
                old(self)@.after(id as int)
            } else {
                old(self)@.state
            }),
    {
        let mut m = self.machine;
        let ok = match self.bytes_of(id as usize) {
            Some(b) => self.grammar.feed_all(&mut m, b.as_slice()),
            None => return false,
        };
        self.machine = m;
        ok
    }

    /// Whether what has been emitted is a complete document.
    pub fn complete(&self) -> (r: bool)
        requires
            self.valid(),
        ensures
            r == self@.complete(),
    {
        self.grammar.complete(&self.machine)
    }
}

proof fn lemma_count_push(v: Seq<bool>, b: bool, n: nat)
    requires
        n <= v.len(),
    ensures
        count_set(v.push(b), n) == count_set(v, n),
    decreases n,
{
    if n > 0 {
        lemma_count_push(v, b, (n - 1) as nat);
    }
}

/// A token that the mask lets through is accepted, and the document stays one
/// that can be completed or continued; a control token never passes.
pub proof fn law_masked_tokens_fit(g: GuideV, id: int)
    ensures
        g.allows(id) ==> g.speaks(id) && (GuideV { bytes: g.bytes, state: g.after(id) }).state is Some,
        !g.speaks(id) ==> !g.allows(id),
        g.state is None ==> !g.allows(id),
{
    if g.speaks(id) && g.state is None {
        crate::automaton::law_failure_is_final(g.bytes[id]);
    }
}

} // verus!
