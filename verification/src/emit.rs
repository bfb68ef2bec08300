//! Emitting text as it is decoded, up to a stop sequence.
//!
//! Stop sequences are a property of the decoded text, not of the tokens. Enough of the
//! tail is held back that one can never be emitted before all of it has been seen.

use vstd::prelude::*;
use vstd::string::*;
use vstd::utf8::{encode_scalar, encode_utf8};
use crate::text::{chars_of, find, first_at, is_at, lemma_encode_concat, lemma_first_at, substring};

verus! {

/// The bytes that a text has.
pub open spec fn byte_len(s: Seq<char>) -> nat {
    encode_utf8(s).len()
}

/// The bytes that a character has.
pub open spec fn width(c: char) -> nat {
    encode_scalar(c as u32).len()
}

fn width_of(c: char) -> (r: u128)
    ensures
        r == width(c),
        1 <= r <= 4,
{
    let n: u32 = c as u32;
    if n <= 0x7f {
        1
    } else if n <= 0x7ff {
        2
    } else if n <= 0xffff {
        3
    } else {
        4
    }
}

proof fn lemma_push(s: Seq<char>, c: char)
    ensures
        byte_len(s.push(c)) == byte_len(s) + width(c),
        1 <= width(c) <= 4,
{
    let one = seq![c];
    assert(s.push(c) =~= s + one);
    lemma_encode_concat(s, one);
    assert(one.drop_first() =~= Seq::<char>::empty());
    assert(encode_utf8(one) =~= encode_scalar(c as u32)) by {
        reveal_with_fuel(encode_utf8, 2);
    }
}

proof fn lemma_bytes_grow(s: Seq<char>, i: int, j: int)
    requires
        0 <= i <= j <= s.len(),
    ensures
        byte_len(s.take(i)) + (j - i) <= byte_len(s.take(j)),
    decreases j - i,
{
    if i < j {
        lemma_bytes_grow(s, i, j - 1);
        assert(s.take(j) =~= s.take(j - 1).push(s[j - 1]));
        lemma_push(s.take(j - 1), s[j - 1]);
    }
}

/// How many characters of the first `k` fit in some bytes.
pub open spec fn fitting(s: Seq<char>, bytes: int, k: nat) -> nat
    decreases k,
{
    if k == 0 || k > s.len() || byte_len(s.take(k as int)) <= bytes {
        k
    } else {
        fitting(s, bytes, (k - 1) as nat)
    }
}

/// The largest number of characters that have no more than some bytes: where a text can
/// be cut at or before a byte.
pub fn floor_boundary(s: &Vec<char>, bytes: u128) -> (r: usize)
    ensures
        r == fitting(s@, bytes as int, s@.len()),
        r <= s@.len(),
        r > 0 ==> byte_len(s@.take(r as int)) <= bytes,
{
    let mut sum: u128 = 0;
    let mut i: usize = 0;
    assert(s@.take(0) =~= Seq::<char>::empty());
    while i < s.len()
        invariant
            i <= s@.len(),
            sum == byte_len(s@.take(i as int)),
            sum <= 4 * i,
            sum <= bytes || i == 0,
        decreases s.len() - i,
    {
        let w: u128 = width_of(s[i]);
        assert(s@.take(i + 1) =~= s@.take(i as int).push(s@[i as int]));
        proof {
            lemma_push(s@.take(i as int), s@[i as int]);
        }
        if sum + w > bytes {
            proof {
                lemma_fitting(s@, bytes as int, i as int, s@.len());
            }
            return i;
        }
        sum = sum + w;
        i += 1;
    }
    assert(s@.take(i as int) =~= s@);
    i
}

proof fn lemma_fitting(s: Seq<char>, bytes: int, i: int, k: nat)
    requires
        0 <= i < s.len(),
        i < k <= s.len(),
        byte_len(s.take(i + 1)) > bytes,
        i == 0 || byte_len(s.take(i)) <= bytes,
    ensures
        fitting(s, bytes, k) == i,
    decreases k,
{
    lemma_bytes_grow(s, i + 1, k as int);
    if k > i + 1 {
        lemma_fitting(s, bytes, i, (k - 1) as nat);
    } else {
        assert(fitting(s, bytes, i as nat) == i);
    }
}

/// The bytes of the longest of the first `n` stop sequences.
pub open spec fn longest(stops: Seq<Seq<char>>, n: nat) -> nat
    decreases n,
{
    if n == 0 || n > stops.len() {
        0
    } else {
        let rest = longest(stops, (n - 1) as nat);
        if byte_len(stops[n - 1]) > rest {
            byte_len(stops[n - 1])
        } else {
            rest
        }
    }
}

/// How many bytes are held back: all but one of the longest stop sequence.
pub open spec fn held(stops: Seq<Seq<char>>) -> nat {
    let n = longest(stops, stops.len());
    if n > 0 {
        (n - 1) as nat
    } else {
        0
    }
}

/// Where the first of the first `n` stop sequences stands in a text.
pub open spec fn earliest(stops: Seq<Seq<char>>, text: Seq<char>, n: nat) -> Option<int>
    decreases n,
{
    if n == 0 || n > stops.len() {
        None
    } else {
        match (earliest(stops, text, (n - 1) as nat), first_at(text, 0, stops[n - 1])) {
            (Some(a), Some(b)) => if b < a {
                Some(b)
            } else {
                Some(a)
            },
            (Some(a), None) => Some(a),
            (None, b) => b,
        }
    }
}

/// What an [`Emitter`] holds.
#[verifier::ext_equal]
pub struct EmitterV {
    pub stops: Seq<Seq<char>>,
    /// Everything decoded, up to a stop sequence.
    pub text: Seq<char>,
    /// Characters emitted.
    pub sent: nat,
    /// Whether a stop sequence was met.
    pub hit: bool,
}

impl EmitterV {
    /// How much of a text can be shown: what is not held back.
    pub open spec fn safe(self, text: Seq<char>) -> nat {
        let n = byte_len(text) - held(self.stops);
        fitting(
            text,
            if n > 0 {
                n
            } else {
                0
            },
            text.len(),
        )
    }

    /// After some more text.
    pub open spec fn after(self, piece: Seq<char>) -> EmitterV {
        let text = self.text + piece;
        match earliest(self.stops, text, self.stops.len()) {
            Some(at) => EmitterV { text: text.take(at), hit: true, ..self },
            None => EmitterV {
                text,
                sent: if self.safe(text) > self.sent {
                    self.safe(text)
                } else {
                    self.sent
                },
                ..self
            },
        }
    }

    /// What is emitted when more text comes: nothing where a stop sequence is met.
    pub open spec fn delta(self, piece: Seq<char>) -> Seq<char> {
        let next = self.after(piece);
        if next.hit {
            Seq::empty()
        } else {
            next.text.subrange(self.sent as int, next.sent as int)
        }
    }

    /// No more is emitted than there is, and of what is there enough is held back.
    pub open spec fn valid(self) -> bool {
        &&& self.sent <= self.text.len()
        &&& !self.hit && self.sent > 0 ==> {
            &&& earliest(self.stops, self.text, self.stops.len()) is None
            &&& byte_len(self.text.take(self.sent as int)) + held(self.stops) <= byte_len(self.text)
        }
    }
}

proof fn lemma_missing(s: Seq<char>, from: int, p: Seq<char>, i: int)
    requires
        0 <= from <= i,
        is_at(s, i, p),
    ensures
        first_at(s, from, p) matches Some(k) && k <= i,
    decreases i - from,
{
    if !is_at(s, from, p) {
        lemma_missing(s, from + 1, p, i);
    }
}

proof fn lemma_longest(stops: Seq<Seq<char>>, n: nat, k: int)
    requires
        0 <= k < n <= stops.len(),
    ensures
        byte_len(stops[k]) <= longest(stops, n),
    decreases n,
{
    if k < n - 1 {
        lemma_longest(stops, (n - 1) as nat, k);
    }
}

proof fn lemma_none(stops: Seq<Seq<char>>, text: Seq<char>, n: nat, k: int)
    requires
        0 <= k < n <= stops.len(),
        earliest(stops, text, n) is None,
    ensures
        first_at(text, 0, stops[k]) is None,
    decreases n,
{
    if k < n - 1 {
        lemma_none(stops, text, (n - 1) as nat, k);
    }
}

proof fn lemma_earliest(stops: Seq<Seq<char>>, text: Seq<char>, n: nat)
    requires
        n <= stops.len(),
    ensures
        earliest(stops, text, n) matches Some(at) ==> {
            &&& exists|k: int| 0 <= k < n && #[trigger] is_at(text, at, stops[k])
            &&& 0 <= at <= text.len()
            &&& forall|k: int| 0 <= k < n ==> ((#[trigger] first_at(text, 0, stops[k])) matches Some(i) ==> at <= i)
        },
    decreases n,
{
    if n > 0 {
        lemma_earliest(stops, text, (n - 1) as nat);
        lemma_first_at(text, 0, stops[n - 1]);
        match earliest(stops, text, n) {
            Some(at) => {
                if first_at(text, 0, stops[n - 1]) == Some(at) {
                    assert(is_at(text, at, stops[n - 1]));
                } else {
                    let k = choose|k: int| 0 <= k < n - 1 && #[trigger] is_at(text, at, stops[k]);
                    assert(is_at(text, at, stops[k]));
                }
                assert forall|k: int| 0 <= k < n implies ((#[trigger] first_at(text, 0, stops[k])) matches Some(i) ==> at
                    <= i) by {
                    if k < n - 1 {
                        match earliest(stops, text, (n - 1) as nat) {
                            Some(a) => {
                                assert(first_at(text, 0, stops[k]) matches Some(i) ==> a <= i);
                            },
                            None => {
                                lemma_none(stops, text, (n - 1) as nat, k);
                            },
                        }
                    }
                }
            },
            None => {},
        }
    }
}

/// What is held back is enough: a stop sequence that comes to light never begins before
/// what was emitted.
proof fn lemma_held_is_enough(e: EmitterV, piece: Seq<char>)
    requires
        e.valid(),
        !e.hit,
    ensures
        earliest(e.stops, e.text + piece, e.stops.len()) matches Some(at) ==> e.sent <= at <= e.text.len() + piece.len(),
{
    let t = e.text + piece;
    lemma_earliest(e.stops, t, e.stops.len());
    match earliest(e.stops, t, e.stops.len()) {
        Some(at) => {
            if e.sent > 0 && at < e.sent {
                let k = choose|k: int| 0 <= k < e.stops.len() && #[trigger] is_at(t, at, e.stops[k]);
                let p = e.stops[k];
                lemma_none(e.stops, e.text, e.stops.len(), k);
                let end = at + p.len() as int;
                if end <= e.text.len() {
                    assert(e.text.subrange(at, end) =~= t.subrange(at, end));
                    lemma_missing(e.text, 0, p, at);
                    assert(false);
                }
                // The sequence reaches past what was there, so it begins within what was
                // held back.
                assert(t.take(end) =~= t.take(at) + p) by {
                    assert(t.subrange(at, end) == p);
                    assert(t.take(end) =~= t.take(at) + t.subrange(at, end));
                }
                lemma_encode_concat(t.take(at), p);
                lemma_longest(e.stops, e.stops.len(), k);
                lemma_bytes_grow(t, e.text.len() as int, end);
                assert(t.take(e.text.len() as int) =~= e.text);
                lemma_bytes_grow(t, at, e.sent as int);
                assert(t.take(e.sent as int) =~= e.text.take(e.sent as int));
                assert(false);
            }
        },
        None => {},
    }
}

proof fn lemma_fits(s: Seq<char>, bytes: int, k: nat)
    requires
        k <= s.len(),
        bytes >= 0,
    ensures
        fitting(s, bytes, k) <= k,
        byte_len(s.take(fitting(s, bytes, k) as int)) <= bytes,
    decreases k,
{
    if k == 0 {
        assert(s.take(0) =~= Seq::<char>::empty());
    } else if byte_len(s.take(k as int)) > bytes {
        lemma_fits(s, bytes, (k - 1) as nat);
    }
}

/// What is emitted only grows: what was emitted stays as it is, and no more is emitted
/// than may be.
pub proof fn law_emitting_keeps_its_word(e: EmitterV, piece: Seq<char>)
    requires
        e.valid(),
        !e.hit,
    ensures
        e.after(piece).valid(),
        e.sent <= e.after(piece).sent,
        e.after(piece).text.take(e.sent as int) == e.text.take(e.sent as int),
        e.text.take(e.sent as int) + e.delta(piece) == e.after(piece).text.take(e.after(piece).sent as int),
{
    let t = e.text + piece;
    let next = e.after(piece);
    lemma_held_is_enough(e, piece);
    match earliest(e.stops, t, e.stops.len()) {
        Some(at) => {
            assert(next.text.take(e.sent as int) =~= e.text.take(e.sent as int));
            assert(e.text.take(e.sent as int) + Seq::<char>::empty() =~= e.text.take(e.sent as int));
        },
        None => {
            let n = byte_len(t) - held(e.stops);
            let limit = if n > 0 {
                n
            } else {
                0
            };
            lemma_fits(t, limit, t.len());
            let s = e.safe(t);
            if s > 0 {
                lemma_bytes_grow(t, 0, s as int);
            }
            lemma_bytes_grow(t, e.text.len() as int, t.len() as int);
            assert(t.take(e.text.len() as int) =~= e.text);
            assert(t.take(t.len() as int) =~= t);
            assert(t.take(e.sent as int) =~= e.text.take(e.sent as int));
            assert(next.text.take(e.sent as int) + next.text.subrange(e.sent as int, next.sent as int)
                =~= next.text.take(next.sent as int));
        },
    }
}

/// An emitter after some pieces of text, and what it emitted, until a stop sequence is met.
pub open spec fn streamed(e: EmitterV, pieces: Seq<Seq<char>>, n: nat) -> (EmitterV, Seq<char>)
    decreases n,
{
    if n == 0 || n > pieces.len() {
        (e, Seq::empty())
    } else {
        let (before, out) = streamed(e, pieces, (n - 1) as nat);
        if before.hit {
            (before, out)
        } else {
            (before.after(pieces[n - 1]), out + before.delta(pieces[n - 1]))
        }
    }
}

/// Streamed deltas reassemble into the whole: what was emitted piece by piece, with the
/// rest at the end, is the text.
pub proof fn law_deltas_reassemble(stops: Seq<Seq<char>>, pieces: Seq<Seq<char>>, n: nat)
    requires
        n <= pieces.len(),
    ensures
        ({
            let e = EmitterV { stops, text: Seq::empty(), sent: 0, hit: false };
            let (end, out) = streamed(e, pieces, n);
            &&& end.valid()
            &&& out == end.text.take(end.sent as int)
            &&& out + end.text.skip(end.sent as int) == end.text
        }),
    decreases n,
{
    let e = EmitterV { stops, text: Seq::empty(), sent: 0, hit: false };
    let (end, out) = streamed(e, pieces, n);
    if n == 0 {
        assert(out =~= end.text.take(0));
    } else {
        law_deltas_reassemble(stops, pieces, (n - 1) as nat);
        let (before, o) = streamed(e, pieces, (n - 1) as nat);
        if !before.hit {
            law_emitting_keeps_its_word(before, pieces[n - 1]);
        }
    }
    assert(end.text.take(end.sent as int) + end.text.skip(end.sent as int) =~= end.text);
}

/// A stop sequence is never shown: the text up to where one was met holds none that has
/// any characters.
pub proof fn law_stops_are_never_shown(e: EmitterV, piece: Seq<char>, k: int)
    requires
        0 <= k < e.stops.len(),
        e.stops[k].len() > 0,
    ensures
        first_at(e.after(piece).text, 0, e.stops[k]) is None,
{
    let t = e.text + piece;
    let p = e.stops[k];
    lemma_earliest(e.stops, t, e.stops.len());
    match earliest(e.stops, t, e.stops.len()) {
        Some(at) => {
            let cut = t.take(at);
            lemma_first_at(cut, 0, p);
            match first_at(cut, 0, p) {
                Some(i) => {
                    assert(t.subrange(i, i + p.len()) =~= cut.subrange(i, i + p.len()));
                    lemma_missing(t, 0, p, i);
                    assert(first_at(t, 0, e.stops[k]) matches Some(j) ==> at <= j);
                    assert(false);
                },
                None => {},
            }
        },
        None => {
            lemma_none(e.stops, t, e.stops.len(), k);
        },
    }
}

/// A stop sequence cuts the text where the first one stands: wherever one comes up, the run is
/// over, nothing of it or behind it is kept, and everything before it is.
pub proof fn law_stops_cut_where_they_stand(e: EmitterV, piece: Seq<char>)
    requires
        !e.hit,
    ensures
        ({
            let t = e.text + piece;
            let next = e.after(piece);
            &&& next.hit <==> exists|k: int, i: int| 0 <= k < e.stops.len() && 0 <= i && #[trigger] is_at(t, i, e.stops[k])
            &&& next.hit ==> {
                &&& next.text == t.take(next.text.len() as int)
                &&& exists|k: int| 0 <= k < e.stops.len() && #[trigger] is_at(t, next.text.len() as int, e.stops[k])
                &&& forall|k: int, i: int|
                    0 <= k < e.stops.len() && 0 <= i && #[trigger] is_at(t, i, e.stops[k]) ==> next.text.len() <= i
            }
            &&& !next.hit ==> next.text == t
        }),
{
    let t = e.text + piece;
    let next = e.after(piece);
    lemma_earliest(e.stops, t, e.stops.len());
    assert forall|k: int, i: int| 0 <= k < e.stops.len() && 0 <= i && #[trigger] is_at(t, i, e.stops[k]) implies next.hit
        && next.text.len() <= i by {
        lemma_missing(t, 0, e.stops[k], i);
        if earliest(e.stops, t, e.stops.len()) is None {
            lemma_none(e.stops, t, e.stops.len(), k);
        }
    }
    if next.hit {
        let at = next.text.len() as int;
        let k = choose|k: int| 0 <= k < e.stops.len() && #[trigger] is_at(t, at, e.stops[k]);
        assert(is_at(t, at, e.stops[k]));
    }
}

proof fn lemma_fits_most(s: Seq<char>, bytes: int, k: nat)
    requires
        k <= s.len(),
    ensures
        fitting(s, bytes, k) < k ==> byte_len(s.take(fitting(s, bytes, k) as int + 1)) > bytes,
        fitting(s, bytes, k) <= k,
    decreases k,
{
    if k > 0 && byte_len(s.take(k as int)) > bytes {
        lemma_fits_most(s, bytes, (k - 1) as nat);
    }
}

proof fn lemma_longest_is_one(stops: Seq<Seq<char>>, n: nat)
    requires
        n <= stops.len(),
        longest(stops, n) > 0,
    ensures
        exists|k: int| 0 <= k < n && #[trigger] byte_len(stops[k]) == longest(stops, n),
    decreases n,
{
    if byte_len(stops[n - 1]) != longest(stops, n) {
        lemma_longest_is_one(stops, (n - 1) as nat);
        let k = choose|k: int| 0 <= k < n - 1 && #[trigger] byte_len(stops[k]) == longest(stops, (n - 1) as nat);
        assert(byte_len(stops[k]) == longest(stops, n));
    }
}

/// No more is held back than a stop sequence could need: one character more, and what is left
/// would be too short to be all but the last byte of any stop sequence.
pub proof fn law_only_what_may_stop_is_held(e: EmitterV, piece: Seq<char>)
    requires
        !e.hit,
        !e.after(piece).hit,
        e.after(piece).sent < e.after(piece).text.len(),
    ensures
        ({
            let next = e.after(piece);
            exists|k: int|
                0 <= k < e.stops.len() && byte_len(next.text) - byte_len(next.text.take(next.sent as int + 1)) + 1 < #[trigger] byte_len(
                    e.stops[k],
                )
        }),
{
    let next = e.after(piece);
    let t = next.text;
    let s = e.safe(t);
    let n = byte_len(t) - held(e.stops);
    let limit = if n > 0 {
        n
    } else {
        0
    };
    lemma_fits_most(t, limit, t.len());
    lemma_bytes_grow(t, s as int + 1, next.sent as int + 1);
    lemma_bytes_grow(t, next.sent as int + 1, t.len() as int);
    assert(t.take(t.len() as int) =~= t);
    assert(byte_len(t.take(next.sent as int + 1)) > n);
    assert(longest(e.stops, e.stops.len()) > 0);
    lemma_longest_is_one(e.stops, e.stops.len());
}

/// Where nothing can stop the text, each piece is sent on at once and as it is.
pub proof fn law_unstopped_text_is_sent_at_once(e: EmitterV, piece: Seq<char>)
    requires
        e.stops.len() == 0,
        e.sent == e.text.len(),
        !e.hit,
    ensures
        e.delta(piece) == piece,
        e.after(piece).sent == e.after(piece).text.len(),
        !e.after(piece).hit,
{
    let t = e.text + piece;
    assert(t.take(t.len() as int) =~= t);
    assert(t.subrange(e.sent as int, t.len() as int) =~= piece);
}

/// Text on its way out.
pub struct Emitter {
    stops: Vec<String>,
    text: Vec<char>,
    sent: usize,
    hold: u128,
    hit: bool,
}

/// The texts of some strings.
pub open spec fn stop_views(v: Seq<String>) -> Seq<Seq<char>> {
    Seq::new(v.len(), |i: int| v[i]@)
}

impl View for Emitter {
    type V = EmitterV;

    closed spec fn view(&self) -> EmitterV {
        EmitterV { stops: stop_views(self.stops@), text: self.text@, sent: self.sent as nat, hit: self.hit }
    }
}

fn bytes_in(s: &Vec<char>) -> (r: u128)
    ensures
        r == byte_len(s@),
        r <= 4 * s@.len(),
{
    let mut sum: u128 = 0;
    let mut i: usize = 0;
    assert(s@.take(0) =~= Seq::<char>::empty());
    while i < s.len()
        invariant
            i <= s@.len(),
            sum == byte_len(s@.take(i as int)),
            sum <= 4 * i,
        decreases s.len() - i,
    {
        assert(s@.take(i + 1) =~= s@.take(i as int).push(s@[i as int]));
        proof {
            lemma_push(s@.take(i as int), s@[i as int]);
        }
        sum = sum + width_of(s[i]);
        i += 1;
    }
    assert(s@.take(i as int) =~= s@);
    sum
}

impl Emitter {
    /// What the fields keep.
    pub closed spec fn valid(self) -> bool {
        self@.valid() && self.hold == held(self@.stops)
    }

    pub fn new(stops: Vec<String>) -> (e: Emitter)
        ensures
            e.valid(),
            e@ == (EmitterV { stops: stop_views(stops@), text: Seq::empty(), sent: 0, hit: false }),
    {
        let ghost v = stop_views(stops@);
        let mut most: u128 = 0;
        let mut i: usize = 0;
        while i < stops.len()
            invariant
                i <= stops@.len(),
                v == stop_views(stops@),
                most == longest(v, i as nat),
            decreases stops.len() - i,
        {
            let c = chars_of(stops[i].as_str());
            let n: u128 = bytes_in(&c);
            assert(v[i as int] == c@);
            if n > most {
                most = n;
            }
            i += 1;
        }
        let hold: u128 = if most > 0 {
            most - 1
        } else {
            0
        };
        let e = Emitter { stops, text: Vec::new(), sent: 0, hold, hit: false };
        assert(e@.text =~= Seq::empty());
        e
    }

    /// Whether a stop sequence was met.
    pub fn stopped(&self) -> (r: bool)
        ensures
            r == self@.hit,
    {
        self.hit
    }

    /// Everything decoded, up to a stop sequence.
    pub fn text(&self) -> (r: String)
        ensures
            r@ == self@.text,
    {
        crate::text::string_of(self.text.as_slice())
    }

    /// Take some more text, and give what can be emitted, which may be nothing. Nothing is
    /// given where a stop sequence is met.
    pub fn push(&mut self, piece: &str) -> (r: String)
        requires
            old(self).valid(),
            !old(self)@.hit,
        ensures
            final(self).valid(),
            final(self)@ == old(self)@.after(piece@),
            r@ == old(self)@.delta(piece@),
    {
        let ghost e = self@;
        proof {
            law_emitting_keeps_its_word(e, piece@);
            lemma_earliest(e.stops, e.text + piece@, e.stops.len());
        }
        let mut more = chars_of(piece);
        self.text.append(&mut more);
        let ghost t = e.text + piece@;
        assert(self.text@ =~= t);
        let mut at: Option<usize> = None;
        let mut i: usize = 0;
        while i < self.stops.len()
            invariant
                i <= self.stops@.len(),
                self.text@ == t,
                e.stops == stop_views(self.stops@),
                match at {
                    Some(a) => earliest(e.stops, t, i as nat) == Some(a as int) && a <= t.len(),
                    None => earliest(e.stops, t, i as nat) is None,
                },
                self.sent == e.sent,
                self.hit == e.hit,
                self.hold == held(e.stops),
            decreases self.stops.len() - i,
        {
            let found: Option<usize> = find(self.text.as_slice(), 0, self.stops[i].as_str());
            assert(e.stops[i as int] == self.stops@[i as int]@);
            at = match (at, found) {
                (Some(a), Some(b)) => if b < a {
                    Some(b)
                } else {
                    Some(a)
                },
                (Some(a), None) => Some(a),
                (None, b) => b,
            };
            i += 1;
        }
        match at {
            Some(a) => {
                self.text.truncate(a);
                self.hit = true;
                assert(self.text@ =~= t.take(a as int));
                let r = String::new();
                assert(r@ =~= Seq::empty());
                r
            },
            None => {
                let n: u128 = bytes_in(&self.text);
                let limit: u128 = if n > self.hold {
                    n - self.hold
                } else {
                    0
                };
                let safe: usize = floor_boundary(&self.text, limit);
                assert(safe == e.safe(t));
                if safe > self.sent {
                    let r = substring(self.text.as_slice(), self.sent, safe);
                    self.sent = safe;
                    r
                } else {
                    let r = String::new();
                    assert(r@ =~= t.subrange(e.sent as int, e.sent as int));
                    r
                }
            },
        }
    }

    /// What is left to emit when nothing more comes.
    pub fn rest(&self) -> (r: String)
        requires
            self.valid(),
        ensures
            r@ == self@.text.skip(self@.sent as int),
    {
        let r = substring(self.text.as_slice(), self.sent, self.text.len());
        assert(r@ =~= self@.text.skip(self@.sent as int));
        r
    }
}

} // verus!
