//! What a schema guarantees, end to end: the documents that its constraint lets through are
//! those of the shape that it describes, and no others.

use vstd::prelude::*;
use vstd::utf8::encode_utf8;
use crate::accept::{clear_values, is_clear, law_documents_are_accepted};
use crate::automaton::{fed_all, is_complete, is_space, started, Shape, CLOSE_BRACKET, MAX_DEPTH, QUOTE};
use crate::document::{is_padded, is_string, law_documents_conform};
use crate::grammar::{encodings, properties_of, property_order, required_of, shape_of};
use crate::json::{quoted, text_of, JsonV};
use crate::names::{law_names_are_told_apart, lemma_quoted_is_string, lemma_strings_stop};

verus! {

/// Whether some names are all different.
pub open spec fn all_different(names: Seq<Seq<char>>) -> bool {
    forall|i: int, j: int| 0 <= i < j < names.len() ==> names[i] != names[j]
}

/// A schema whose fixed values are strings and whose objects name each property once, down
/// to the given depth.
pub open spec fn is_regular(s: JsonV, depth: nat) -> bool
    decreases 33 - depth,
{
    if depth > MAX_DEPTH {
        true
    } else if s.get("const"@) is Some {
        s.field("const"@) is Str
    } else if s.field("enum"@).as_array() is Some {
        forall|i: int| 0 <= i < s.field("enum"@).as_array()->0.len() ==> (#[trigger] s.field("enum"@).as_array()->0[i]) is Str
    } else {
        &&& s.get("items"@) matches Some(items) ==> is_regular(items, depth + 1)
        &&& s.field("properties"@).as_object() matches Some(props) ==> {
            let order = property_order(props, required_of(s));
            &&& all_different(order)
            &&& forall|i: int| 0 <= i < order.len() ==> is_regular(JsonV::Obj(props).field(#[trigger] order[i]), depth + 1)
        }
    }
}

/// Strings as values are not cut short by one another.
proof fn lemma_strings_are_clear(options: Seq<Seq<u8>>)
    requires
        forall|i: int| 0 <= i < options.len() ==> is_string(#[trigger] options[i]),
    ensures
        clear_values(options),
        forall|i: int|
            0 <= i < options.len() ==> (#[trigger] options[i]).len() > 0 && !is_space(options[i][0]) && options[i][0]
                != CLOSE_BRACKET,
{
    assert forall|i: int, j: int|
        #![trigger options[i], options[j]]
        0 <= i < options.len() && 0 <= j < options.len() && options[j].len() > options[i].len() implies options[j].take(
        options[i].len() as int,
    ) != options[i] by {
        lemma_strings_stop(options[i], options[j]);
    }
    assert forall|i: int| 0 <= i < options.len() implies (#[trigger] options[i]).len() > 0 && !is_space(options[i][0])
        && options[i][0] != CLOSE_BRACKET by {
        assert(options[i][0] == QUOTE);
    }
}

/// The properties of an object stand under their names.
proof fn lemma_properties(
    props: Seq<(Seq<char>, JsonV)>,
    req: Seq<Seq<char>>,
    order: Seq<Seq<char>>,
    depth: nat,
    k: nat,
    room: int,
)
    requires
        depth <= MAX_DEPTH,
        k <= order.len(),
        properties_of(props, req, order, depth, k) is Ok,
        forall|i: int| 0 <= i < order.len() ==> is_regular(JsonV::Obj(props).field(#[trigger] order[i]), depth + 1),
    ensures
        ({
            let v = properties_of(props, req, order, depth, k)->Ok_0;
            &&& v.len() == k
            &&& forall|i: int| 0 <= i < k ==> (#[trigger] v[i]).key == encode_utf8(quoted(order[i]))
            &&& forall|i: int| 0 <= i < k ==> is_clear((#[trigger] v[i]).shape, room)
        }),
    decreases 33 - depth, 0nat, k,
{
    if k > 0 {
        lemma_properties(props, req, order, depth, (k - 1) as nat, room);
        let name = order[k - 1];
        lemma_regular(JsonV::Obj(props).field(name), depth + 1, room);
        let before = properties_of(props, req, order, depth, (k - 1) as nat)->Ok_0;
        let v = properties_of(props, req, order, depth, k)->Ok_0;
        assert(v =~= before.push(v[k - 1]));
    }
}

/// The shape of a regular schema is clear.
proof fn lemma_regular(s: JsonV, depth: nat, room: int)
    requires
        is_regular(s, depth),
        shape_of(s, depth) is Ok,
    ensures
        is_clear(shape_of(s, depth)->Ok_0, room),
    decreases 33 - depth, 1nat, 0nat,
{
    let shape = shape_of(s, depth)->Ok_0;
    if room < 1 {
    } else if s.get("const"@) is Some {
        let text = s.field("const"@)->Str_0;
        lemma_quoted_is_string(text);
        assert(text_of(s.field("const"@)) == quoted(text));
        lemma_strings_are_clear(seq![encode_utf8(quoted(text))]);
        assert(is_clear(shape, room));
    } else if s.field("enum"@).as_array() is Some {
        let vals = s.field("enum"@).as_array()->0;
        let options = encodings(vals);
        assert forall|i: int| 0 <= i < options.len() implies is_string(#[trigger] options[i]) by {
            assert(vals[i] is Str);
            lemma_quoted_is_string(vals[i]->Str_0);
            assert(text_of(vals[i]) == quoted(vals[i]->Str_0));
        }
        lemma_strings_are_clear(options);
        assert(is_clear(shape, room));
    } else {
        match shape {
            Shape::Array { items, .. } => {
                match s.get("items"@) {
                    Some(i) => lemma_regular(i, depth + 1, room - 1),
                    None => {},
                }
                assert(is_clear(*items, room - 1));
                assert(is_clear(shape, room));
            },
            Shape::Object(p) => {
                match s.field("properties"@).as_object() {
                    Some(props) => {
                        let req = required_of(s);
                        let order = property_order(props, req);
                        lemma_properties(props, req, order, depth, order.len(), room - 1);
                        law_names_are_told_apart(order, p);
                    },
                    None => law_names_are_told_apart(Seq::empty(), p),
                }
                assert(is_clear(shape, room));
            },
            _ => {},
        }
    }
}

/// A schema is obeyed to the letter: bytes are read to a complete document where they are a
/// value of the shape that the schema describes, nested no deeper than the limit, and only
/// there.
pub proof fn law_schemas_are_obeyed(s: JsonV, bytes: Seq<u8>)
    requires
        is_regular(s, 0),
        shape_of(s, 0) is Ok,
    ensures
        ({
            let shape = shape_of(s, 0)->Ok_0;
            (fed_all(started(shape), bytes) matches Some(t) && is_complete(t)) <==> is_padded(shape, bytes, MAX_DEPTH - 1)
        }),
{
    let shape = shape_of(s, 0)->Ok_0;
    lemma_regular(s, 0, MAX_DEPTH - 1);
    if is_padded(shape, bytes, MAX_DEPTH - 1) {
        law_documents_are_accepted(shape, bytes);
    }
    if fed_all(started(shape), bytes) matches Some(t) && is_complete(t) {
        law_documents_conform(shape, bytes);
    }
}

} // verus!
