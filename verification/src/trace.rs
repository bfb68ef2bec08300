//! Writing a routing trace: a header line that explains the file without the model, then
//! one object per token and routed layer. Flat rather than nested so it streams and greps.

use vstd::prelude::*;
use vstd::string::*;
use crate::json::{
    add_item, array, entry_from, entry_views, item_views, number, object, put, string, Json, JsonV, Number, NumberV,
};
use crate::model::Route;
use crate::route::{event_in, events_in, events_of, head_number, header_in, pair_heads, EventV};

verus! {

/// The line that a trace begins with.
pub open spec fn trace_header_of(model: Seq<char>, layers: u64, experts: u64, top_k: u64) -> JsonV {
    JsonV::Obj(
        seq![
            ("experts"@, JsonV::Num(NumberV::Pos(experts))),
            ("layers"@, JsonV::Num(NumberV::Pos(layers))),
            ("model"@, JsonV::Str(model)),
            ("top_k"@, JsonV::Num(NumberV::Pos(top_k))),
        ],
    )
}

/// The line that a trace begins with.
pub fn trace_header(model: &str, layers: u64, experts: u64, top_k: u64) -> (r: Json)
    ensures
        r@ == trace_header_of(model@, layers, experts, top_k),
{
    let mut v: Vec<(String, Json)> = Vec::new();
    assert(entry_views(v@) =~= Seq::empty());
    put(&mut v, "experts", number(experts));
    put(&mut v, "layers", number(layers));
    put(&mut v, "model", string(model));
    put(&mut v, "top_k", number(top_k));
    assert(entry_views(v@) =~= seq![
        ("experts"@, JsonV::Num(NumberV::Pos(experts))),
        ("layers"@, JsonV::Num(NumberV::Pos(layers))),
        ("model"@, JsonV::Str(model@)),
        ("top_k"@, JsonV::Num(NumberV::Pos(top_k))),
    ]);
    object(v)
}

/// An expert and the weight it was given.
pub open spec fn weighted(e: u32, w: NumberV) -> JsonV {
    JsonV::Arr(seq![JsonV::Num(NumberV::Pos(e as u64)), JsonV::Num(w)])
}

/// A number that may be missing.
pub open spec fn id_or_null(id: Option<u32>) -> JsonV {
    match id {
        Some(i) => JsonV::Num(NumberV::Pos(i as u64)),
        None => JsonV::Null,
    }
}

/// A text that may be missing.
pub open spec fn text_or_null(s: Option<Seq<char>>) -> JsonV {
    match s {
        Some(t) => JsonV::Str(t),
        None => JsonV::Null,
    }
}

/// The line of one decision: the experts that were chosen with their weights, the layer,
/// the position, and the token there.
pub open spec fn trace_line_of(
    r: Route,
    weights: Seq<NumberV>,
    token: Option<u32>,
    text: Option<Seq<char>>,
) -> JsonV {
    JsonV::Obj(
        seq![
            (
                "experts"@,
                JsonV::Arr(Seq::new(r.experts@.len(), |i: int| weighted(r.experts@[i].0, weights[i]))),
            ),
            ("layer"@, JsonV::Num(NumberV::Pos(r.layer as u64))),
            ("pos"@, JsonV::Num(NumberV::Pos(r.pos as u64))),
            ("text"@, text_or_null(text)),
            ("token"@, id_or_null(token)),
        ],
    )
}

/// What some numbers hold.
pub open spec fn weight_views(v: Seq<Number>) -> Seq<NumberV> {
    Seq::new(v.len(), |i: int| v[i]@)
}

fn copy(n: &Number) -> (r: Json)
    ensures
        r@ == JsonV::Num(n@),
{
    match n {
        Number::Pos(x) => Json::Num(Number::Pos(*x)),
        Number::Neg(x) => Json::Num(Number::Neg(*x)),
        Number::Float(b, t) => Json::Num(Number::Float(*b, t.clone())),
    }
}

/// The line of one decision, its weights written as decimal numbers.
pub fn trace_line(r: &Route, weights: &Vec<Number>, token: Option<u32>, text: Option<&str>) -> (j: Json)
    requires
        weights@.len() == r.experts@.len(),
    ensures
        j@ == trace_line_of(*r, weight_views(weights@), token, crate::prompt::str_view(text)),
{
    let ghost w = weight_views(weights@);
    let ghost want = Seq::new(r.experts@.len(), |i: int| weighted(r.experts@[i].0, w[i]));
    let mut items: Vec<Json> = Vec::new();
    let mut i: usize = 0;
    assert(item_views(items@) =~= want.take(0));
    while i < r.experts.len()
        invariant
            i <= r.experts@.len(),
            weights@.len() == r.experts@.len(),
            w == weight_views(weights@),
            want == Seq::new(r.experts@.len(), |i: int| weighted(r.experts@[i].0, w[i])),
            item_views(items@) == want.take(i as int),
        decreases r.experts.len() - i,
    {
        let mut pair: Vec<Json> = Vec::new();
        assert(item_views(pair@) =~= Seq::empty());
        add_item(&mut pair, number(r.experts[i].0 as u64));
        add_item(&mut pair, copy(&weights[i]));
        assert(item_views(pair@) =~= seq![
            JsonV::Num(NumberV::Pos(r.experts@[i as int].0 as u64)),
            JsonV::Num(w[i as int]),
        ]);
        add_item(&mut items, array(pair));
        i += 1;
        assert(want.take(i as int) =~= want.take(i - 1).push(want[i - 1]));
    }
    assert(want.take(i as int) =~= want);
    let t: Json = match text {
        Some(s) => string(s),
        None => Json::Null,
    };
    let id: Json = match token {
        Some(k) => number(k as u64),
        None => Json::Null,
    };
    let mut v: Vec<(String, Json)> = Vec::new();
    assert(entry_views(v@) =~= Seq::empty());
    put(&mut v, "experts", array(items));
    put(&mut v, "layer", number(r.layer as u64));
    put(&mut v, "pos", number(r.pos as u64));
    put(&mut v, "text", t);
    put(&mut v, "token", id);
    assert(entry_views(v@) =~= seq![
        ("experts"@, JsonV::Arr(want)),
        ("layer"@, JsonV::Num(NumberV::Pos(r.layer as u64))),
        ("pos"@, JsonV::Num(NumberV::Pos(r.pos as u64))),
        ("text"@, text_or_null(crate::prompt::str_view(text))),
        ("token"@, id_or_null(token)),
    ]);
    object(v)
}

proof fn lemma_keys()
    ensures
        "experts"@ != "layer"@,
        "experts"@ != "layers"@,
        "experts"@ != "model"@,
        "experts"@ != "pos"@,
        "experts"@ != "top_k"@,
        "layer"@ != "pos"@,
        "layers"@ != "pos"@,
        "layers"@ != "model"@,
        "layers"@ != "top_k"@,
        "model"@ != "pos"@,
        "model"@ != "top_k"@,
        "top_k"@ != "pos"@,
{
    reveal_strlit("experts");
    reveal_strlit("layer");
    reveal_strlit("layers");
    reveal_strlit("model");
    reveal_strlit("pos");
    reveal_strlit("top_k");
    assert("experts"@[0] == 'e' && "layer"@[0] == 'l' && "layers"@[0] == 'l' && "model"@[0] == 'm' && "pos"@[0] == 'p'
        && "top_k"@[0] == 't');
}

proof fn lemma_heads(r: Route, w: Seq<NumberV>, n: nat)
    requires
        n <= r.experts@.len(),
    ensures
        ({
            let v = Seq::new(r.experts@.len(), |i: int| weighted(r.experts@[i].0, w[i]));
            pair_heads(v, n) == Seq::new(n, |j: int| r.experts@[j].0)
        }),
    decreases n,
{
    let v = Seq::new(r.experts@.len(), |i: int| weighted(r.experts@[i].0, w[i]));
    if n > 0 {
        lemma_heads(r, w, (n - 1) as nat);
        assert(head_number(v[n - 1]) == Some(r.experts@[n - 1].0 as u64));
        assert(Seq::new(n, |j: int| r.experts@[j].0) =~= Seq::new((n - 1) as nat, |j: int| r.experts@[j].0).push(
            r.experts@[n - 1].0,
        ));
    } else {
        assert(pair_heads(v, 0) =~= Seq::new(0, |j: int| r.experts@[j].0));
    }
}

/// A decision written to a trace reads back as itself.
pub proof fn law_line_reads_back(r: Route, weights: Seq<NumberV>, token: Option<u32>, text: Option<Seq<char>>)
    ensures
        ({
            let line = trace_line_of(r, weights, token, text);
            &&& line.get("pos"@) is Some
            &&& event_in(line) == (EventV {
                pos: r.pos,
                layer: r.layer,
                experts: Seq::new(r.experts@.len(), |j: int| r.experts@[j].0),
            })
        }),
{
    let line = trace_line_of(r, weights, token, text);
    lemma_keys();
    reveal_with_fuel(entry_from, 6);
    let m = line->Obj_0;
    assert(m[0].0 == "experts"@ && m[1].0 == "layer"@ && m[2].0 == "pos"@);
    assert(line.get("experts"@) == Some(m[0].1));
    assert(line.get("layer"@) == Some(m[1].1));
    assert(line.get("pos"@) == Some(m[2].1));
    lemma_heads(r, weights, r.experts@.len());
}

/// A line says what the token at its position is and how it reads, or that it is not known, and
/// gives each expert its own weight.
pub proof fn law_line_names_its_token(r: Route, weights: Seq<NumberV>, token: Option<u32>, text: Option<Seq<char>>)
    requires
        weights.len() == r.experts@.len(),
    ensures
        ({
            let line = trace_line_of(r, weights, token, text);
            &&& token matches Some(id) ==> line.get("token"@) == Some(JsonV::Num(NumberV::Pos(id as u64)))
            &&& token is None ==> line.get("token"@) == Some(JsonV::Null)
            &&& text matches Some(s) ==> line.get("text"@) == Some(JsonV::Str(s))
            &&& text is None ==> line.get("text"@) == Some(JsonV::Null)
            &&& line.get("experts"@) matches Some(JsonV::Arr(pairs)) && pairs.len() == weights.len() && forall|j: int|
                0 <= j < pairs.len() ==> #[trigger] pairs[j] == JsonV::Arr(
                    seq![JsonV::Num(NumberV::Pos(r.experts@[j].0 as u64)), JsonV::Num(weights[j])],
                )
        }),
{
    let line = trace_line_of(r, weights, token, text);
    lemma_keys();
    lemma_token_keys();
    reveal_with_fuel(entry_from, 6);
    let m = line->Obj_0;
    assert(m[0].0 == "experts"@ && m[1].0 == "layer"@ && m[2].0 == "pos"@ && m[3].0 == "text"@ && m[4].0 == "token"@);
    assert(line.get("experts"@) == Some(m[0].1));
    assert(line.get("text"@) == Some(m[3].1));
    assert(line.get("token"@) == Some(m[4].1));
}

proof fn lemma_token_keys()
    ensures
        "text"@ != "experts"@ && "text"@ != "layer"@ && "text"@ != "pos"@ && "text"@ != "token"@,
        "token"@ != "experts"@ && "token"@ != "layer"@ && "token"@ != "pos"@,
{
    reveal_strlit("experts");
    reveal_strlit("layer");
    reveal_strlit("pos");
    reveal_strlit("text");
    reveal_strlit("token");
    assert("experts"@.len() == 7 && "layer"@.len() == 5 && "pos"@.len() == 3 && "text"@.len() == 4 && "token"@.len() == 5);
    assert("layer"@[0] == 'l' && "token"@[0] == 't');
}

/// A trace written to a file reads back as itself: counting its lines counts the same
/// decisions, under the same model.
pub proof fn law_trace_reads_back(
    routes: Seq<Route>,
    lines: Seq<JsonV>,
    weights: Seq<Seq<NumberV>>,
    tokens: Seq<Option<u32>>,
    texts: Seq<Option<Seq<char>>>,
    model: Seq<char>,
    layers: u64,
    experts: usize,
    top_k: usize,
    n: nat,
)
    requires
        n <= routes.len(),
        lines.len() == routes.len() + 1,
        lines[0] == trace_header_of(model, layers, experts as u64, top_k as u64),
        forall|i: int|
            0 <= i < routes.len() ==> (#[trigger] lines[i + 1]) == trace_line_of(
                routes[i],
                weights[i],
                tokens[i],
                texts[i],
            ),
    ensures
        events_in(lines, n + 1) == events_of(routes).take(n as int),
        header_in(lines, n + 1) == (model, experts, top_k),
    decreases n,
{
    if n == 0 {
        lemma_keys();
        reveal_with_fuel(entry_from, 6);
        let h = lines[0];
        let m = h->Obj_0;
        assert(m[0].0 == "experts"@ && m[1].0 == "layers"@ && m[2].0 == "model"@ && m[3].0 == "top_k"@);
        assert(h.get("pos"@) is None);
        assert(h.get("experts"@) == Some(m[0].1));
        assert(h.get("model"@) == Some(m[2].1));
        assert(h.get("top_k"@) == Some(m[3].1));
        reveal_with_fuel(events_in, 2);
        assert(events_in(lines, 1) =~= events_of(routes).take(0));
    } else {
        law_trace_reads_back(
            routes,
            lines,
            weights,
            tokens,
            texts,
            model,
            layers,
            experts,
            top_k,
            (n - 1) as nat,
        );
        let i = n - 1;
        assert(lines[i + 1] == trace_line_of(routes[i], weights[i], tokens[i], texts[i]));
        law_line_reads_back(routes[i], weights[i], tokens[i], texts[i]);
        assert(events_of(routes).take(n as int) =~= events_of(routes).take(n - 1).push(events_of(routes)[n - 1]));
    }
}

} // verus!
