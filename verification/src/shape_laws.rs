//! What a schema asks for, when generation stops, and how JSON and plain text are taken apart and put
//! together.

use vstd::prelude::*;
use vstd::utf8::encode_utf8;
use crate::automaton::Shape;
use crate::generate::{ActionV, Event, GeneratorV, Stop};
use crate::grammar::{properties_of, required_of, shape_of, strings_among};
use crate::json::{entry_from, items_text, quoted, text_of, JsonV, NumberV};
use crate::text::{
    after_blank, before_blank, decimal_of, first_word, last_part_of, last_start, strip_end, strip_start, trimmed, whitespace,
    word_end, Blank,
};

verus! {

/// The types of a schema by their names.
pub proof fn law_types_are_named(s: JsonV, ty: Seq<char>)
    requires
        s.get("const"@) is None,
        s.get("enum"@) is None,
        s.get("type"@) == Some(JsonV::Str(ty)),
    ensures
        ty == "string"@ ==> shape_of(s, 0) == Ok::<Shape, Seq<char>>(Shape::Str),
        ty == "integer"@ ==> shape_of(s, 0) == Ok::<Shape, Seq<char>>(Shape::Num { integer: true }),
        ty == "number"@ ==> shape_of(s, 0) == Ok::<Shape, Seq<char>>(Shape::Num { integer: false }),
        ty == "boolean"@ ==> shape_of(s, 0) == Ok::<Shape, Seq<char>>(Shape::Bool),
        ty == "null"@ ==> shape_of(s, 0) == Ok::<Shape, Seq<char>>(Shape::Null),
        ty == "object"@ && s.get("properties"@) is None ==> shape_of(s, 0) == Ok::<Shape, Seq<char>>(Shape::Object(Seq::empty())),
        ty != "string"@ && ty != "integer"@ && ty != "number"@ && ty != "boolean"@ && ty != "null"@ && ty != "array"@ && ty
            != "object"@ ==> shape_of(s, 0) is Err,
{
    reveal_strlit("string");
    reveal_strlit("integer");
    reveal_strlit("number");
    reveal_strlit("boolean");
    reveal_strlit("null");
    reveal_strlit("array");
    reveal_strlit("object");
    assert("string"@.len() == 6 && "string"@[0] == 's');
    assert("integer"@.len() == 7 && "integer"@[0] == 'i');
    assert("number"@.len() == 6 && "number"@[0] == 'n');
    assert("boolean"@.len() == 7 && "boolean"@[0] == 'b');
    assert("null"@.len() == 4);
    assert("array"@.len() == 5);
    assert("object"@.len() == 6 && "object"@[0] == 'o');
}

/// A schema that says nothing allows anything; one with fixed values allows just those, as JSON writes
/// them.
pub proof fn law_values_are_fixed(s: JsonV, v: JsonV, list: Seq<JsonV>, i: int)
    ensures
        s.get("const"@) is None && s.get("enum"@) is None && s.get("type"@) is None ==> shape_of(s, 0) == Ok::<Shape, Seq<char>>(
            Shape::Any,
        ),
        s.get("const"@) == Some(v) ==> shape_of(s, 0) == Ok::<Shape, Seq<char>>(Shape::Enum(seq![encode_utf8(text_of(v))])),
        s.get("const"@) is None && s.get("enum"@) == Some(JsonV::Arr(list)) && 0 < list.len() <= 64 ==> (shape_of(s, 0) matches Ok(
            Shape::Enum(o),
        ) && o.len() == list.len() && (0 <= i < list.len() ==> o[i] == encode_utf8(text_of(list[i])))),
        s.get("const"@) is None && s.get("enum"@) == Some(JsonV::Arr(list)) && (list.len() == 0 || list.len() > 64) ==> shape_of(
            s,
            0,
        ) is Err,
{
}

/// An array has the shape of its items, and as many of them as its bounds allow: any number where none is
/// given.
pub proof fn law_arrays_are_bounded(s: JsonV, items: JsonV, shape: Shape, min: u32, max: u32)
    requires
        s.get("const"@) is None,
        s.get("enum"@) is None,
        s.get("type"@) == Some(JsonV::Str("array"@)),
        s.get("items"@) == Some(items),
        shape_of(items, 1) == Ok::<Shape, Seq<char>>(shape),
    ensures
        s.get("minItems"@) is None && s.get("maxItems"@) is None ==> shape_of(s, 0) == Ok::<Shape, Seq<char>>(
            Shape::Array { items: Box::new(shape), min: 0, max: u32::MAX },
        ),
        s.get("minItems"@) == Some(JsonV::Num(NumberV::Pos(min as u64))) && s.get("maxItems"@) == Some(
            JsonV::Num(NumberV::Pos(max as u64)),
        ) && min <= max ==> shape_of(s, 0) == Ok::<Shape, Seq<char>>(Shape::Array { items: Box::new(shape), min, max }),
        s.get("minItems"@) == Some(JsonV::Num(NumberV::Pos(min as u64))) && s.get("maxItems"@) == Some(
            JsonV::Num(NumberV::Pos(max as u64)),
        ) && min > max ==> shape_of(s, 0) is Err,
{
    reveal_strlit("string");
    reveal_strlit("integer");
    reveal_strlit("number");
    reveal_strlit("boolean");
    reveal_strlit("null");
    reveal_strlit("array");
    reveal_strlit("object");
    assert("string"@.len() == 6 && "string"@[0] == 's');
    assert("integer"@.len() == 7 && "integer"@[0] == 'i');
    assert("number"@.len() == 6 && "number"@[0] == 'n');
    assert("boolean"@.len() == 7 && "boolean"@[0] == 'b');
    assert("null"@.len() == 4);
    assert("array"@.len() == 5);
    assert("object"@.len() == 6 && "object"@[0] == 'o');
}

/// An object's properties stand in their order, each under its name in quotes, with its own schema's
/// shape, and are owed where the schema requires them.
pub proof fn law_properties_are_described(
    props: Seq<(Seq<char>, JsonV)>,
    req: Seq<Seq<char>>,
    order: Seq<Seq<char>>,
    depth: nat,
    k: nat,
    i: int,
)
    requires
        depth <= 32,
        k <= order.len(),
        0 <= i < k,
        properties_of(props, req, order, depth, k) is Ok,
    ensures
        ({
            let v = properties_of(props, req, order, depth, k)->Ok_0;
            &&& v.len() == k
            &&& v[i].key == encode_utf8(quoted(order[i]))
            &&& v[i].required <==> req.contains(order[i])
            &&& shape_of(JsonV::Obj(props).field(order[i]), depth + 1) == Ok::<Shape, Seq<char>>(v[i].shape)
        }),
    decreases k,
{
    if i < k - 1 {
        law_properties_are_described(props, req, order, depth, (k - 1) as nat, i);
    } else if k > 1 {
        law_properties_are_described(props, req, order, depth, (k - 1) as nat, 0);
    }
}

/// What a schema requires is its list of names.
pub proof fn law_required_names_are_read(s: JsonV, names: Seq<Seq<char>>)
    ensures
        s.get("required"@) == Some(JsonV::Arr(Seq::new(names.len(), |i: int| JsonV::Str(names[i])))) ==> required_of(s) == names,
        s.get("required"@) is None ==> required_of(s) == Seq::<Seq<char>>::empty(),
{
    lemma_strings(names, names.len());
    assert(names.subrange(0, names.len() as int) =~= names);
}

proof fn lemma_strings(names: Seq<Seq<char>>, n: nat)
    requires
        n <= names.len(),
    ensures
        strings_among(Seq::new(names.len(), |i: int| JsonV::Str(names[i])), n) == names.subrange(0, n as int),
    decreases n,
{
    if n > 0 {
        lemma_strings(names, (n - 1) as nat);
    }
    assert(strings_among(Seq::new(names.len(), |i: int| JsonV::Str(names[i])), n) =~= names.subrange(0, n as int));
}

/// A token that ends the sequence stops the run and is not said; one that does not fit the window stops
/// it too; any other is said and remembered.
pub proof fn law_tokens_are_said_or_stop(s: GeneratorV, t: u32)
    ensures
        s.eos.contains(t) ==> s.advance(Event::Drawn(t)).1 == ActionV::Finish(Stop::Eos) && s.advance(Event::Drawn(t)).0.history
            == s.history && s.advance(Event::Drawn(t)).0.tokens == s.tokens,
        !s.eos.contains(t) && s.pos >= s.ctx ==> s.advance(Event::Drawn(t)).1 == ActionV::Finish(Stop::Context),
        !s.eos.contains(t) && s.pos < s.ctx ==> s.advance(Event::Drawn(t)).1 == ActionV::Say(t) && s.advance(
            Event::Drawn(t),
        ).0.history == s.history.push(t) && s.advance(Event::Drawn(t)).0.tokens == s.tokens + 1,
{
}

/// A run ends when the caller has heard enough, when its constraint is met, when it has as many tokens as
/// were asked for, or when the window is full, in this order; else the last token is run.
pub proof fn law_runs_end(s: GeneratorV)
    requires
        s.phase is Said,
        s.guide is None,
        s.history.len() > 0,
    ensures
        s.advance(Event::Heard(false)).1 == ActionV::Finish(Stop::Caller),
        s.tokens >= s.plan.max_tokens ==> s.advance(Event::Heard(true)).1 == ActionV::Finish(Stop::Length),
        s.tokens < s.plan.max_tokens && s.pos >= s.ctx ==> s.advance(Event::Heard(true)).1 == ActionV::Finish(Stop::Context),
        s.tokens < s.plan.max_tokens && s.pos < s.ctx ==> (s.advance(Event::Heard(true)).1 matches ActionV::Run(v) && v.len() >= 1
            && v[0] == s.history.last() && v.len() <= 1 + s.plan.lookahead && (s.plan.lookahead == 0 ==> v == seq![
            s.history.last(),
        ])),
{
    if s.tokens < s.plan.max_tokens && s.pos < s.ctx {
        let want = crate::generate::least(
            crate::generate::least(s.plan.lookahead as nat, (s.ctx - s.pos - 1) as nat),
            (s.plan.max_tokens - s.tokens) as nat,
        );
        crate::draft::law_drafts_replay(s.plan.lookup, s.history, want);
        assert(seq![s.history.last()] + Seq::<u32>::empty() =~= seq![s.history.last()]);
    }
}

/// Nothing is drawn where nothing was asked for, and where a constraint leaves no token the run is stuck.
pub proof fn law_runs_begin(s: GeneratorV)
    ensures
        s.plan.max_tokens == 0 ==> s.advance(Event::Begin).1 == ActionV::Finish(Stop::Length),
        s.plan.max_tokens > 0 && s.guide is None ==> s.advance(Event::Begin).1 == (ActionV::Draw { row: 0, mask: None }),
        s.plan.max_tokens > 0 && s.stuck() ==> s.advance(Event::Begin).1 == ActionV::Finish(Stop::Stuck),
{
}

/// A drafted token that is kept is said; one that is replaced is dropped with all behind it, and the
/// replacement is committed in its place.
pub proof fn law_drafts_are_kept_or_replaced(s: GeneratorV, t: u32)
    requires
        s.taken < s.draft.len(),
    ensures
        !s.eos.contains(s.draft[s.taken as int]) ==> s.advance(Event::Kept).1 == ActionV::Say(s.draft[s.taken as int]) && s.advance(
            Event::Kept,
        ).0.history == s.history.push(s.draft[s.taken as int]),
        s.eos.contains(s.draft[s.taken as int]) ==> s.advance(Event::Kept).1 == ActionV::Finish(Stop::Eos) && s.advance(
            Event::Kept,
        ).0.history == s.history,
        !s.eos.contains(t) && s.base + 1 + s.taken < s.ctx ==> s.advance(Event::Replaced(t)).1 == ActionV::Say(t) && s.advance(
            Event::Replaced(t),
        ).0.pos == s.base + 1 + s.taken,
{
}

/// JSON is written without spaces: words for the three that have them, numbers in decimal, lists in
/// brackets and objects in braces, with commas between, and a colon behind each key.
pub proof fn law_json_is_written(a: JsonV, b: JsonV, k: Seq<char>, n: u64)
    ensures
        text_of(JsonV::Null) == "null"@,
        text_of(JsonV::Bool(true)) == "true"@,
        text_of(JsonV::Bool(false)) == "false"@,
        text_of(JsonV::Num(NumberV::Pos(n))) == decimal_of(n as nat),
        text_of(JsonV::Str(k)) == quoted(k),
        text_of(JsonV::Arr(Seq::empty())) =~= seq!['[', ']'],
        text_of(JsonV::Arr(seq![a])) =~= seq!['['] + text_of(a) + seq![']'],
        text_of(JsonV::Arr(seq![a, b])) =~= seq!['['] + text_of(a) + seq![','] + text_of(b) + seq![']'],
        text_of(JsonV::Obj(Seq::empty())) =~= seq!['{', '}'],
        text_of(JsonV::Obj(seq![(k, a)])) =~= seq!['{'] + quoted(k) + seq![':'] + text_of(a) + seq!['}'],
{
    reveal_with_fuel(items_text, 3);
    reveal_with_fuel(crate::json::entries_text, 3);
    let one = seq![a];
    let two = seq![a, b];
    assert(one[0] == a && two[0] == a && two[1] == b);
    assert(items_text(two, 1) == text_of(a));
    let o = seq![(k, a)];
    assert(o[0] == (k, a));
}

/// A list grows by a comma and its next element.
pub proof fn law_lists_grow(v: Seq<JsonV>, n: nat)
    requires
        1 < n <= v.len(),
    ensures
        items_text(v, n) == items_text(v, (n - 1) as nat) + seq![','] + text_of(v[n - 1]),
{
}

/// The value under a key is that of the first entry with it.
pub proof fn law_first_entry_counts(m: Seq<(Seq<char>, JsonV)>, i: int, key: Seq<char>)
    ensures
        0 <= i < m.len() && m[i].0 == key && (forall|j: int| 0 <= j < i ==> (#[trigger] m[j]).0 != key) ==> JsonV::Obj(m).get(key)
            == Some(m[i].1) && JsonV::Obj(m).field(key) == m[i].1,
        (forall|j: int| 0 <= j < m.len() ==> (#[trigger] m[j]).0 != key) ==> JsonV::Obj(m).get(key) is None && JsonV::Obj(
            m,
        ).field(key) == JsonV::Null,
{
    if 0 <= i < m.len() && m[i].0 == key && (forall|j: int| 0 <= j < i ==> (#[trigger] m[j]).0 != key) {
        lemma_entry(m, key, 0, i);
    }
    if forall|j: int| 0 <= j < m.len() ==> (#[trigger] m[j]).0 != key {
        lemma_no_entry(m, key, 0);
    }
}

proof fn lemma_entry(m: Seq<(Seq<char>, JsonV)>, key: Seq<char>, from: int, i: int)
    requires
        0 <= from <= i < m.len(),
        m[i].0 == key,
        forall|j: int| 0 <= j < i ==> (#[trigger] m[j]).0 != key,
    ensures
        entry_from(m, key, from) == Some(m[i].1),
    decreases i - from,
{
    if from < i {
        assert(m[from].0 != key);
        lemma_entry(m, key, from + 1, i);
    }
}

proof fn lemma_no_entry(m: Seq<(Seq<char>, JsonV)>, key: Seq<char>, from: int)
    requires
        0 <= from,
        forall|j: int| 0 <= j < m.len() ==> (#[trigger] m[j]).0 != key,
    ensures
        entry_from(m, key, from) is None,
    decreases m.len() - from,
{
    if from < m.len() {
        assert(m[from].0 != key);
        lemma_no_entry(m, key, from + 1);
    }
}

/// Trimming takes whitespace off both ends, all of it, and nothing else.
pub proof fn law_trimming(a: Seq<char>, s: Seq<char>, b: Seq<char>)
    requires
        forall|k: int| 0 <= k < a.len() ==> whitespace(#[trigger] a[k]),
        forall|k: int| 0 <= k < b.len() ==> whitespace(#[trigger] b[k]),
        s.len() == 0 || !whitespace(s[0]) && !whitespace(s[s.len() - 1]),
    ensures
        s.len() > 0 ==> trimmed(a + s + b) == s,
        trimmed(a) == Seq::<char>::empty(),
{
    if s.len() > 0 {
        let t = a + s + b;
        let n = a.len() as int;
        assert forall|k: int| 0 <= k < n implies whitespace(#[trigger] t[k]) by {
            assert(t[k] == a[k]);
        }
        assert(t[n] == s[0]);
        lemma_after(t, 0, n);
        let u = t.subrange(n, t.len() as int);
        assert(u =~= s + b);
        let e = s.len() as int;
        assert forall|k: int| e <= k < u.len() implies whitespace(#[trigger] u[k]) by {
            assert(u[k] == b[k - e]);
        }
        assert(u[e - 1] == s[e - 1]);
        lemma_before(u, u.len() as int, e);
        assert(u.subrange(0, e) =~= s);
    }
    lemma_after(a, 0, a.len() as int);
    let r = strip_start(a, Blank::Space);
    assert(r =~= Seq::<char>::empty());
}

proof fn lemma_after(s: Seq<char>, i: int, n: int)
    requires
        0 <= i <= n <= s.len(),
        forall|k: int| 0 <= k < n ==> whitespace(#[trigger] s[k]),
        n == s.len() || !whitespace(s[n]),
    ensures
        after_blank(s, i, Blank::Space) == n,
    decreases n - i,
{
    if i < n {
        assert(whitespace(s[i]));
        lemma_after(s, i + 1, n);
    }
}

proof fn lemma_before(s: Seq<char>, j: int, n: int)
    requires
        0 < n <= j <= s.len(),
        forall|k: int| n <= k < s.len() ==> whitespace(#[trigger] s[k]),
        !whitespace(s[n - 1]),
    ensures
        before_blank(s, j, Blank::Space) == n,
    decreases j - n,
{
    if n < j {
        assert(whitespace(s[j - 1]));
        lemma_before(s, j - 1, n);
    }
}

/// A separator at the end is taken off; a text without one stays.
pub proof fn law_ends_are_stripped(s: Seq<char>)
    ensures
        strip_end(s.push('/'), Blank::Slash) == strip_end(s, Blank::Slash),
        s.len() > 0 && s[s.len() - 1] != '/' ==> strip_end(s, Blank::Slash) == s,
        strip_end(s.push('/'), Blank::Separator) == strip_end(s, Blank::Separator),
        strip_end(s.push('\\'), Blank::Separator) == strip_end(s, Blank::Separator),
{
    let a = s.push('/');
    let b = s.push('\\');
    lemma_same(s, a, s.len() as int, Blank::Slash);
    lemma_same(s, a, s.len() as int, Blank::Separator);
    lemma_same(s, b, s.len() as int, Blank::Separator);
    assert(strip_end(a, Blank::Slash) =~= strip_end(s, Blank::Slash));
    assert(strip_end(a, Blank::Separator) =~= strip_end(s, Blank::Separator));
    assert(strip_end(b, Blank::Separator) =~= strip_end(s, Blank::Separator));
    if s.len() > 0 && s[s.len() - 1] != '/' {
        assert(s.subrange(0, s.len() as int) =~= s);
    }
}

proof fn lemma_same(s: Seq<char>, t: Seq<char>, j: int, k: Blank)
    requires
        0 <= j <= s.len() <= t.len(),
        forall|i: int| 0 <= i < s.len() ==> #[trigger] t[i] == s[i],
    ensures
        before_blank(s, j, k) == before_blank(t, j, k),
        0 <= before_blank(s, j, k) <= j,
    decreases j,
{
    if j > 0 {
        assert(t[j - 1] == s[j - 1]);
        lemma_same(s, t, j - 1, k);
    }
}

/// The last part of a path is what stands behind its last separator.
pub proof fn law_last_parts(a: Seq<char>, b: Seq<char>)
    requires
        forall|k: int| 0 <= k < b.len() ==> #[trigger] b[k] != '/',
    ensures
        last_part_of(a + seq!['/'] + b, Blank::Slash) == b,
        last_part_of(b, Blank::Slash) == b,
{
    let s = a + seq!['/'] + b;
    let n = a.len() as int + 1;
    assert(s[n - 1] == '/');
    assert forall|k: int| n <= k < s.len() implies #[trigger] s[k] != '/' by {
        assert(s[k] == b[k - n]);
    }
    lemma_last(s, s.len() as int, n);
    assert(s.subrange(n, s.len() as int) =~= b);
    lemma_last(b, b.len() as int, 0);
    assert(b.subrange(0, b.len() as int) =~= b);
}

proof fn lemma_last(s: Seq<char>, j: int, n: int)
    requires
        0 <= n <= j <= s.len(),
        n > 0 ==> s[n - 1] == '/',
        forall|k: int| n <= k < s.len() ==> #[trigger] s[k] != '/',
    ensures
        last_start(s, j, Blank::Slash) == n,
    decreases j,
{
    if n < j {
        assert(s[j - 1] != '/');
        lemma_last(s, j - 1, n);
    }
}

/// The first word of a text ends at its first space.
pub proof fn law_first_words(w: Seq<char>, rest: Seq<char>)
    requires
        w.len() > 0,
        forall|k: int| 0 <= k < w.len() ==> !whitespace(#[trigger] w[k]),
    ensures
        first_word(w) == w,
        first_word(w + seq![' '] + rest) == w,
        first_word(seq![' '] + w) == w,
{
    assert(!whitespace(w[0]));
    lemma_word(w, 0, w.len() as int);
    assert(strip_start(w, Blank::Space) =~= w);
    assert(w.subrange(0, w.len() as int) =~= w);
    let s = w + seq![' '] + rest;
    assert(s[0] == w[0]);
    assert(strip_start(s, Blank::Space) =~= s);
    assert forall|k: int| 0 <= k < w.len() implies !whitespace(#[trigger] s[k]) by {
        assert(s[k] == w[k]);
    }
    assert(s[w.len() as int] == ' ');
    lemma_word(s, 0, w.len() as int);
    assert(s.subrange(0, w.len() as int) =~= w);
    let u = seq![' '] + w;
    assert(u[0] == ' ' && u[1] == w[0]);
    lemma_after(u, 0, 1);
    assert(strip_start(u, Blank::Space) =~= w);
}

proof fn lemma_word(s: Seq<char>, i: int, n: int)
    requires
        0 <= i <= n <= s.len(),
        forall|k: int| 0 <= k < n ==> !whitespace(#[trigger] s[k]),
        n == s.len() || whitespace(s[n]),
    ensures
        word_end(s, i) == n,
    decreases n - i,
{
    if i < n {
        assert(!whitespace(s[i]));
        lemma_word(s, i + 1, n);
    }
}

} // verus!
