//! What the server reads and says: which path leads where, which key of a request sets what, and
//! under which key an answer says it.

use vstd::prelude::*;
use crate::float::Real;
use crate::automaton::Shape;
use crate::http::{ascii_lowered, head_of, reason_of, route_of, HeadV};
use crate::json::{entry_from, JsonV, NumberV};
use crate::reply::{
    chunk_of, completion_of, embeddings_of, endpoint_of, entry_of, keyed, logs_of, metric_of, offset, stream_error_of, usage_of,
    ChoiceV, Endpoint, Metrics, TokenLogV,
};
use crate::request::{
    checked_input, ids_of, input_of, inputs_of, misfit, prompt_of, shape_asked, stops_of, texts_among, views, Params,
};
use crate::text::{decimal_of, first_at, is_at, law_decimal_reads_back, trimmed};
use crate::tokenizer::TokenizerV;

verus! {

/// Where each path leads, by its method; a request that would have to wait behind too many is turned
/// away, and only one that would have to be answered by the model waits at all.
pub proof fn law_paths_lead(method: Seq<char>, route: Seq<char>, waiting: int, room: int)
    ensures
        endpoint_of("OPTIONS"@, route, waiting, room) == Endpoint::Options,
        endpoint_of("GET"@, "/health"@, waiting, room) == Endpoint::Health,
        endpoint_of("GET"@, "/v1/models"@, waiting, room) == Endpoint::Models,
        endpoint_of("GET"@, "/metrics"@, waiting, room) == Endpoint::Metrics,
        route != "/health"@ && route != "/v1/models"@ && route != "/metrics"@ ==> endpoint_of("GET"@, route, waiting, room)
            == Endpoint::Missing,
        waiting < room ==> endpoint_of("POST"@, "/v1/chat/completions"@, waiting, room) == Endpoint::Chat,
        waiting < room ==> endpoint_of("POST"@, "/v1/completions"@, waiting, room) == Endpoint::Completions,
        waiting < room ==> endpoint_of("POST"@, "/v1/embeddings"@, waiting, room) == Endpoint::Embeddings,
        waiting < room && route != "/v1/chat/completions"@ && route != "/v1/completions"@ && route != "/v1/embeddings"@
            ==> endpoint_of("POST"@, route, waiting, room) == Endpoint::Missing,
        waiting >= room ==> endpoint_of("POST"@, route, waiting, room) == Endpoint::Busy,
        method != "OPTIONS"@ && method != "GET"@ && method != "POST"@ ==> endpoint_of(method, route, waiting, room)
            == Endpoint::NotAllowed,
        Endpoint::Missing.refuses() matches Some(r) && r.0 == 404,
        Endpoint::NotAllowed.refuses() matches Some(r) && r.0 == 405,
        Endpoint::Busy.refuses() matches Some(r) && r.0 == 503,
        Endpoint::Chat.refuses() is None && Endpoint::Completions.refuses() is None && Endpoint::Embeddings.refuses() is None,
        Endpoint::Health.refuses() is None && Endpoint::Models.refuses() is None && Endpoint::Metrics.refuses() is None,
{
    reveal_strlit("OPTIONS");
    reveal_strlit("GET");
    reveal_strlit("POST");
    reveal_strlit("/health");
    reveal_strlit("/v1/models");
    reveal_strlit("/metrics");
    reveal_strlit("/v1/chat/completions");
    reveal_strlit("/v1/completions");
    reveal_strlit("/v1/embeddings");
    assert("OPTIONS"@.len() == 7 && "OPTIONS"@[0] == 'O');
    assert("GET"@.len() == 3);
    assert("POST"@.len() == 4);
    assert("/health"@.len() == 7 && "/health"@[0] == '/');
    assert("/v1/models"@.len() == 10);
    assert("/metrics"@.len() == 8);
    assert("/v1/chat/completions"@.len() == 20);
    assert("/v1/completions"@.len() == 15);
    assert("/v1/embeddings"@.len() == 14);
}

/// The route of a path is what stands before its query.
pub proof fn law_queries_are_cut_off(route: Seq<char>, query: Seq<char>)
    requires
        forall|k: int| 0 <= k < route.len() ==> #[trigger] route[k] != '?',
    ensures
        route_of(route + seq!['?'] + query) == route,
        route_of(route) == route,
{
    reveal_strlit("?");
    let p = route + seq!['?'] + query;
    let n = route.len() as int;
    assert(p.subrange(n, n + 1) =~= "?"@);
    assert forall|k: int| 0 <= k < n implies !is_at(p, k, "?"@) by {
        if is_at(p, k, "?"@) {
            assert(p.subrange(k, k + 1)[0] == route[k]);
        }
    }
    lemma_first(p, "?"@, 0, n);
    assert(p.subrange(0, n) =~= route);
    lemma_none(route, 0);
}

proof fn lemma_first(s: Seq<char>, p: Seq<char>, from: int, at: int)
    requires
        0 <= from <= at,
        is_at(s, at, p),
        forall|k: int| from <= k < at ==> !is_at(s, k, p),
    ensures
        first_at(s, from, p) == Some(at),
    decreases at - from,
{
    if from < at {
        lemma_first(s, p, from + 1, at);
    }
}

proof fn lemma_none(s: Seq<char>, from: int)
    requires
        0 <= from,
        forall|k: int| 0 <= k < s.len() ==> #[trigger] s[k] != '?',
    ensures
        first_at(s, from, "?"@) is None,
    decreases s.len() - from + 1,
{
    reveal_strlit("?");
    if from <= s.len() {
        if is_at(s, from, "?"@) {
            assert(s.subrange(from, from + 1)[0] == s[from]);
        }
        lemma_none(s, from + 1);
    }
}

/// What a request sets, key by key, and what holds where it is silent: 256 tokens and at most 8192,
/// one completion and at most eight, no alternatives and at most twenty.
pub proof fn law_requests_are_read(p: Params, body: JsonV, n: u64, bits: u64, b: bool, text: Seq<char>)
    requires
        p.reads(body),
    ensures
        body.get("max_tokens"@) == Some(JsonV::Num(NumberV::Pos(n))) ==> p.max_tokens == (if n <= 8192 { n } else { 8192 }),
        body.get("max_tokens"@) is None ==> p.max_tokens == 256,
        body.get("temperature"@) == Some(JsonV::Num(NumberV::Float(bits, text))) ==> p.temperature == Some(Real::Bits(bits)),
        body.get("temperature"@) is None ==> p.temperature is None,
        body.get("top_p"@) == Some(JsonV::Num(NumberV::Float(bits, text))) ==> p.top_p == Some(Real::Bits(bits)),
        body.get("top_p"@) is None ==> p.top_p is None,
        body.get("frequency_penalty"@) == Some(JsonV::Num(NumberV::Float(bits, text))) ==> p.frequency_penalty == Some(
            Real::Bits(bits),
        ),
        body.get("top_k"@) == Some(JsonV::Num(NumberV::Pos(n))) && n <= usize::MAX ==> p.top_k == n,
        body.get("top_k"@) is None ==> p.top_k == 0,
        body.get("seed"@) == Some(JsonV::Num(NumberV::Pos(n))) ==> p.seed == Some(n),
        body.get("seed"@) is None ==> p.seed is None,
        body.get("stop"@) == Some(JsonV::Str(text)) ==> views(p.stop@) == seq![text],
        body.get("stop"@) is None ==> views(p.stop@) == Seq::<Seq<char>>::empty(),
        body.get("n"@) == Some(JsonV::Num(NumberV::Pos(n))) ==> p.n == (if n == 0 {
            1
        } else if n <= 8 {
            n
        } else {
            8
        }),
        body.get("n"@) is None ==> p.n == 1,
        body.get("echo"@) == Some(JsonV::Bool(b)) ==> p.echo == b,
        body.get("echo"@) is None ==> !p.echo,
        body.get("stream"@) == Some(JsonV::Bool(b)) ==> p.stream == b,
        body.get("stream"@) is None ==> !p.stream,
        body.get("logprobs"@) == Some(JsonV::Num(NumberV::Pos(n))) ==> p.logprobs == (if n <= 20 { n } else { 20 }),
        body.get("logprobs"@) is None ==> p.logprobs == 0,
        body.get("logprobs"@) == Some(JsonV::Bool(false)) ==> p.logprobs == 0,
        body.get("logprobs"@) == Some(JsonV::Bool(true)) && body.get("top_logprobs"@) is None ==> p.logprobs == 1,
        body.get("logprobs"@) == Some(JsonV::Bool(true)) && body.get("top_logprobs"@) == Some(JsonV::Num(NumberV::Pos(n)))
            && 0 < n <= 20 ==> p.logprobs == n,
{
}

/// A list of stop sequences is taken whole and in order.
pub proof fn law_stops_are_read(v: Seq<Seq<char>>)
    ensures
        stops_of(JsonV::Arr(Seq::new(v.len(), |i: int| JsonV::Str(v[i])))) == v,
{
    lemma_texts(v, v.len());
    assert(v.subrange(0, v.len() as int) =~= v);
}

proof fn lemma_texts(v: Seq<Seq<char>>, n: nat)
    requires
        n <= v.len(),
    ensures
        texts_among(Seq::new(v.len(), |i: int| JsonV::Str(v[i])), n) == v.subrange(0, n as int),
    decreases n,
{
    if n > 0 {
        lemma_texts(v, (n - 1) as nat);
    }
    assert(texts_among(Seq::new(v.len(), |i: int| JsonV::Str(v[i])), n) =~= v.subrange(0, n as int));
}

/// What a completion continues: a text as the tokenizer encodes it, or token ids as they are.
pub proof fn law_prompts_are_read(body: JsonV, tok: TokenizerV, bos: Option<u32>, text: Seq<char>, ids: Seq<u32>)
    ensures
        body.get("prompt"@) == Some(JsonV::Str(text)) ==> prompt_of(body, Some(tok), bos) == Ok::<Seq<u32>, Seq<char>>(
            tok.encode(text, bos),
        ),
        body.get("prompt"@) == Some(JsonV::Arr(seq![JsonV::Str(text)])) ==> prompt_of(body, Some(tok), bos) == Ok::<
            Seq<u32>,
            Seq<char>,
        >(tok.encode(text, bos)),
        ids.len() > 0 && body.get("prompt"@) == Some(
            JsonV::Arr(Seq::new(ids.len(), |i: int| JsonV::Num(NumberV::Pos(ids[i] as u64)))),
        ) ==> prompt_of(body, None, bos) == Ok::<Seq<u32>, Seq<char>>(ids),
        body.get("prompt"@) is None ==> prompt_of(body, Some(tok), bos) is Err,
        body.get("prompt"@) == Some(JsonV::Str(text)) ==> prompt_of(body, None, bos) is Err,
{
    let one = seq![JsonV::Str(text)];
    assert(one[0].as_u64() is None);
    lemma_ids(ids);
}

proof fn lemma_ids(ids: Seq<u32>)
    ensures
        ids_of(Seq::new(ids.len(), |i: int| JsonV::Num(NumberV::Pos(ids[i] as u64)))) == ids,
{
    assert(ids_of(Seq::new(ids.len(), |i: int| JsonV::Num(NumberV::Pos(ids[i] as u64)))) =~= ids);
}

/// What is embedded: one text, or token ids, and each must fit the window and not be empty.
pub proof fn law_inputs_are_read(body: JsonV, tok: TokenizerV, bos: Option<u32>, ctx: int, text: Seq<char>, ids: Seq<u32>)
    ensures
        body.get("input"@) == Some(JsonV::Str(text)) && 0 < tok.encode(text, bos).len() <= ctx ==> inputs_of(
            body,
            Some(tok),
            bos,
            ctx,
        ) == Ok::<Seq<Seq<u32>>, Seq<char>>(seq![tok.encode(text, bos)]),
        body.get("input"@) == Some(JsonV::Str(text)) && (tok.encode(text, bos).len() == 0 || tok.encode(text, bos).len() > ctx)
            ==> inputs_of(body, Some(tok), bos, ctx) is Err,
        0 < ids.len() <= ctx && body.get("input"@) == Some(
            JsonV::Arr(Seq::new(ids.len(), |i: int| JsonV::Num(NumberV::Pos(ids[i] as u64)))),
        ) ==> inputs_of(body, None, bos, ctx) == Ok::<Seq<Seq<u32>>, Seq<char>>(seq![ids]),
        body.get("input"@) == Some(JsonV::Arr(Seq::empty())) ==> inputs_of(body, Some(tok), bos, ctx) is Err,
        input_of(JsonV::Str(text), Some(tok), bos) == Ok::<Seq<u32>, Seq<char>>(tok.encode(text, bos)),
        checked_input(Ok(ids), 0, ctx) is Ok <==> 0 < ids.len() <= ctx,
{
    lemma_ids(ids);
}

/// A prompt fits where it is not empty and leaves the window room for what is to be generated.
pub proof fn law_windows_hold_prompt_and_answer(prompt: nat, max_tokens: nat, ctx: nat)
    ensures
        misfit(prompt, max_tokens, ctx) is None <==> 0 < prompt && prompt + max_tokens <= ctx,
{
}

/// An answer is constrained where its format asks for an object or for a schema, and else it is not.
pub proof fn law_formats_constrain(rf: JsonV, schema: JsonV, shape: Shape)
    ensures
        rf.get("type"@) == Some(JsonV::Str("json_object"@)) ==> shape_asked(rf) == Some(Shape::Any),
        rf.get("type"@) == Some(JsonV::Str("text"@)) ==> shape_asked(rf) is None,
        rf.get("type"@) is None ==> shape_asked(rf) is None,
        rf.get("type"@) == Some(JsonV::Str("json_schema"@)) && rf.field("json_schema"@).get("schema"@) == Some(schema)
            && crate::grammar::shape_of(schema, 0) == Ok::<Shape, Seq<char>>(shape) ==> shape_asked(rf) == Some(shape),
        rf.get("type"@) == Some(JsonV::Str("json_schema"@)) && rf.field("json_schema"@).get("schema"@) is None
            && crate::grammar::shape_of(rf.field("json_schema"@), 0) == Ok::<Shape, Seq<char>>(shape) ==> shape_asked(rf) == Some(
            shape,
        ),
{
    reveal_strlit("json_object");
    reveal_strlit("json_schema");
    reveal_strlit("text");
    assert("json_object"@.len() == 11 && "json_object"@[5] == 'o');
    assert("json_schema"@.len() == 11 && "json_schema"@[5] == 's');
    assert("text"@.len() == 4);
}

/// What a request cost: its prompt, its answer, and both together.
pub proof fn law_usage_adds_up(prompt: u64, completion: u64)
    requires
        prompt + completion <= u64::MAX,
    ensures
        usage_of(prompt, completion).field("prompt_tokens"@) == JsonV::Num(NumberV::Pos(prompt)),
        usage_of(prompt, completion).field("completion_tokens"@) == JsonV::Num(NumberV::Pos(completion)),
        usage_of(prompt, completion).field("total_tokens"@) == JsonV::Num(NumberV::Pos((prompt + completion) as u64)),
{
    reveal_strlit("prompt_tokens");
    reveal_strlit("completion_tokens");
    reveal_strlit("total_tokens");
    assert("prompt_tokens"@.len() == 13);
    assert("completion_tokens"@.len() == 17);
    assert("total_tokens"@.len() == 12);
    reveal_with_fuel(entry_from, 4);
}

/// An answer says its choices in order, each with its text, why it ended and its number: a chat's as a
/// message of the assistant, a completion's as a text.
pub proof fn law_answers_say(chat: bool, choices: Seq<ChoiceV>, prompt: u64, tokens: u64, model: Seq<char>, now: u64, i: int)
    requires
        0 <= i < choices.len() <= u64::MAX,
    ensures
        ({
            let a = completion_of(chat, choices, prompt, tokens, model, now);
            &&& a.field("model"@) == JsonV::Str(model)
            &&& a.field("created"@) == JsonV::Num(NumberV::Pos(now))
            &&& a.field("usage"@) == usage_of(prompt, tokens)
            &&& a.field("object"@) == JsonV::Str(if chat { "chat.completion"@ } else { "text_completion"@ })
            &&& a.field("choices"@) is Arr && a.field("choices"@)->Arr_0.len() == choices.len()
            &&& {
                let c = a.field("choices"@)->Arr_0[i];
                &&& c.field("index"@) == JsonV::Num(NumberV::Pos(i as u64))
                &&& c.field("finish_reason"@) == JsonV::Str(choices[i].finish)
                &&& chat ==> c.field("message"@).field("content"@) == JsonV::Str(choices[i].text) && c.field("message"@).field(
                    "role"@,
                ) == JsonV::Str("assistant"@)
                &&& !chat ==> c.field("text"@) == JsonV::Str(choices[i].text)
                &&& choices[i].logs is None ==> c.field("logprobs"@) == JsonV::Null
                &&& choices[i].logs matches Some(v) ==> c.field("logprobs"@) == (if chat {
                    crate::reply::chat_logs_of(v)
                } else {
                    logs_of(v)
                })
            }
        }),
{
    reveal_strlit("model");
    reveal_strlit("created");
    reveal_strlit("usage");
    reveal_strlit("object");
    reveal_strlit("choices");
    reveal_strlit("id");
    reveal_strlit("index");
    reveal_strlit("finish_reason");
    reveal_strlit("message");
    reveal_strlit("content");
    reveal_strlit("role");
    reveal_strlit("text");
    reveal_strlit("logprobs");
    assert("model"@.len() == 5 && "model"@[0] == 'm');
    assert("created"@.len() == 7 && "created"@[0] == 'c' && "created"@[1] == 'r');
    assert("usage"@.len() == 5 && "usage"@[0] == 'u');
    assert("object"@.len() == 6);
    assert("choices"@.len() == 7 && "choices"@[0] == 'c' && "choices"@[1] == 'h');
    assert("id"@.len() == 2);
    assert("index"@.len() == 5 && "index"@[0] == 'i');
    assert("finish_reason"@.len() == 13);
    assert("message"@.len() == 7 && "message"@[0] == 'm');
    assert("content"@.len() == 7 && "content"@[0] == 'c' && "content"@[1] == 'o');
    assert("role"@.len() == 4 && "role"@[0] == 'r');
    assert("text"@.len() == 4 && "text"@[0] == 't');
    assert("logprobs"@.len() == 8);
    reveal_with_fuel(entry_from, 7);
}

/// A part of an answer on its way says what was added and, once it has, why it ended; a chat's first
/// part says who speaks.
pub proof fn law_chunks_say(chat: bool, delta: Seq<char>, first: bool, finish: Option<Seq<char>>, index: u64, model: Seq<char>, now: u64)
    ensures
        ({
            let a = chunk_of(chat, delta, first, finish, index, model, now);
            &&& a.field("model"@) == JsonV::Str(model)
            &&& a.field("object"@) == JsonV::Str(if chat { "chat.completion.chunk"@ } else { "text_completion"@ })
            &&& a.field("choices"@) is Arr && a.field("choices"@)->Arr_0.len() == 1
            &&& {
                let c = a.field("choices"@)->Arr_0[0];
                &&& c.field("index"@) == JsonV::Num(NumberV::Pos(index))
                &&& finish is None ==> c.field("finish_reason"@) == JsonV::Null
                &&& finish matches Some(f) ==> c.field("finish_reason"@) == JsonV::Str(f)
                &&& !chat ==> c.field("text"@) == JsonV::Str(delta)
                &&& chat && delta.len() > 0 ==> c.field("delta"@).field("content"@) == JsonV::Str(delta)
                &&& chat && delta.len() == 0 ==> c.field("delta"@).field("content"@) == JsonV::Null
                &&& chat && first ==> c.field("delta"@).field("role"@) == JsonV::Str("assistant"@)
                &&& chat && !first ==> c.field("delta"@).field("role"@) == JsonV::Null
            }
        }),
{
    reveal_strlit("model");
    reveal_strlit("created");
    reveal_strlit("object");
    reveal_strlit("choices");
    reveal_strlit("id");
    reveal_strlit("index");
    reveal_strlit("finish_reason");
    reveal_strlit("delta");
    reveal_strlit("content");
    reveal_strlit("role");
    reveal_strlit("text");
    assert("model"@.len() == 5 && "model"@[0] == 'm');
    assert("created"@.len() == 7 && "created"@[1] == 'r');
    assert("object"@.len() == 6);
    assert("choices"@.len() == 7 && "choices"@[1] == 'h');
    assert("id"@.len() == 2);
    assert("index"@.len() == 5 && "index"@[0] == 'i');
    assert("finish_reason"@.len() == 13);
    assert("delta"@.len() == 5 && "delta"@[0] == 'd');
    assert("content"@.len() == 7 && "content"@[1] == 'o');
    assert("role"@.len() == 4 && "role"@[0] == 'r');
    assert("text"@.len() == 4 && "text"@[0] == 't');
    reveal_with_fuel(entry_from, 6);
}

/// The logs of a completion run side by side: token, logarithm and place of each; a token's place is
/// where the ones before it end.
pub proof fn law_logs_run_side_by_side(v: Seq<TokenLogV>, i: int)
    requires
        0 <= i < v.len(),
        offset(v, i as nat) <= u64::MAX,
    ensures
        logs_of(v).field("tokens"@) is Arr && logs_of(v).field("tokens"@)->Arr_0.len() == v.len() && logs_of(v).field(
            "tokens"@,
        )->Arr_0[i] == JsonV::Str(v[i].token),
        logs_of(v).field("token_logprobs"@) is Arr && logs_of(v).field("token_logprobs"@)->Arr_0[i] == JsonV::Num(v[i].logprob),
        logs_of(v).field("text_offset"@) is Arr && logs_of(v).field("text_offset"@)->Arr_0[i] == JsonV::Num(
            NumberV::Pos(offset(v, i as nat) as u64),
        ),
        logs_of(v).field("top_logprobs"@) is Arr && logs_of(v).field("top_logprobs"@)->Arr_0[i] == JsonV::Obj(
            keyed(v[i].top, v[i].top.len()),
        ),
        offset(v, 0) == 0,
        offset(v, (i + 1) as nat) == offset(v, i as nat) + vstd::utf8::encode_utf8(v[i].token).len(),
        entry_of(v[i]).field("token"@) == JsonV::Str(v[i].token),
        entry_of(v[i]).field("logprob"@) == JsonV::Num(v[i].logprob),
{
    reveal_strlit("tokens");
    reveal_strlit("token_logprobs");
    reveal_strlit("text_offset");
    reveal_strlit("top_logprobs");
    reveal_strlit("token");
    reveal_strlit("logprob");
    assert("tokens"@.len() == 6);
    assert("token_logprobs"@.len() == 14);
    assert("text_offset"@.len() == 11);
    assert("top_logprobs"@.len() == 12);
    assert("token"@.len() == 5);
    assert("logprob"@.len() == 7);
    reveal_with_fuel(entry_from, 5);
}

/// Embeddings come in the order of their inputs, number by number.
pub proof fn law_embeddings_say(v: Seq<Seq<NumberV>>, total: u64, model: Seq<char>, i: int, k: int)
    requires
        0 <= i < v.len() <= u64::MAX,
        0 <= k < v[i].len(),
    ensures
        ({
            let a = embeddings_of(v, total, model);
            &&& a.field("object"@) == JsonV::Str("list"@)
            &&& a.field("model"@) == JsonV::Str(model)
            &&& a.field("usage"@).field("prompt_tokens"@) == JsonV::Num(NumberV::Pos(total))
            &&& a.field("data"@) is Arr && a.field("data"@)->Arr_0.len() == v.len()
            &&& a.field("data"@)->Arr_0[i].field("index"@) == JsonV::Num(NumberV::Pos(i as u64))
            &&& a.field("data"@)->Arr_0[i].field("object"@) == JsonV::Str("embedding"@)
            &&& a.field("data"@)->Arr_0[i].field("embedding"@) is Arr
            &&& a.field("data"@)->Arr_0[i].field("embedding"@)->Arr_0.len() == v[i].len()
            &&& a.field("data"@)->Arr_0[i].field("embedding"@)->Arr_0[k] == JsonV::Num(v[i][k])
        }),
{
    reveal_strlit("data");
    reveal_strlit("model");
    reveal_strlit("object");
    reveal_strlit("usage");
    reveal_strlit("embedding");
    reveal_strlit("index");
    reveal_strlit("prompt_tokens");
    reveal_strlit("total_tokens");
    assert("data"@.len() == 4);
    assert("model"@.len() == 5 && "model"@[0] == 'm');
    assert("object"@.len() == 6);
    assert("usage"@.len() == 5 && "usage"@[0] == 'u');
    assert("embedding"@.len() == 9);
    assert("index"@.len() == 5 && "index"@[0] == 'i');
    assert("prompt_tokens"@.len() == 13);
    assert("total_tokens"@.len() == 12);
    reveal_with_fuel(entry_from, 5);
}

/// An error in an open stream stands under its own key.
pub proof fn law_stream_errors_say(message: Seq<char>)
    ensures
        stream_error_of(message).field("error"@).field("message"@) == JsonV::Str(message),
{
    reveal_with_fuel(entry_from, 2);
}

/// The head of a response: its status with the words for it, the type of what follows, and that the
/// connection is closed behind it.
pub proof fn law_heads_say(status: u16, kind: Seq<char>, extra: Seq<char>)
    ensures
        head_of(status, kind, extra, false) == "HTTP/1.1 "@ + decimal_of(status as nat) + " "@ + reason_of(status)
            + "\r\nContent-Type: "@ + kind + "\r\n"@ + Seq::<char>::empty() + extra + "Connection: close\r\n\r\n"@,
        reason_of(200) == "OK"@,
        reason_of(400) == "Bad Request"@,
        reason_of(404) == "Not Found"@,
        reason_of(405) == "Method Not Allowed"@,
        reason_of(413) == "Payload Too Large"@,
        reason_of(503) == "Service Unavailable"@,
{
}

/// The length of a body is that of its header, in whatever case the header is written.
pub proof fn law_lengths_are_read(h: HeadV, name: Seq<char>, value: Seq<char>, n: nat)
    requires
        ascii_lowered(name) == "content-length"@,
        forall|k: int| 0 <= k < name.len() ==> #[trigger] name[k] != ':',
        trimmed(value) == decimal_of(n),
        n <= usize::MAX,
    ensures
        h.after(name + seq![':'] + value) matches Ok(g) && g.len == n,
{
    reveal_strlit(":");
    let l = name + seq![':'] + value;
    let i = name.len() as int;
    assert(l.subrange(i, i + 1) =~= ":"@);
    assert forall|k: int| 0 <= k < i implies !is_at(l, k, ":"@) by {
        if is_at(l, k, ":"@) {
            assert(l.subrange(k, k + 1)[0] == name[k]);
        }
    }
    lemma_first(l, ":"@, 0, i);
    assert(l.subrange(0, i) =~= name);
    assert(l.subrange(i + 1, l.len() as int) =~= value);
    law_decimal_reads_back(n);
    assert(decimal_of(n)[0] != '+');
}

/// Letters compare without their case, and nothing else does.
pub proof fn law_lowering_is_for_letters(s: Seq<char>, i: int)
    requires
        0 <= i < s.len(),
    ensures
        ascii_lowered(s).len() == s.len(),
        'A' <= s[i] <= 'Z' ==> ascii_lowered(s)[i] as int == s[i] as int + ('a' as int - 'A' as int),
        !('A' <= s[i] <= 'Z') ==> ascii_lowered(s)[i] == s[i],
{
}

/// Every counter is shown behind its own name.
pub proof fn law_metrics_are_shown(m: Metrics, queued: u64)
    ensures
        m.text(queued) == metric_of("moe_requests_total"@, "counter"@, m.requests) + metric_of(
            "moe_embedding_requests_total"@,
            "counter"@,
            m.embeddings,
        ) + metric_of("moe_prompt_tokens_total"@, "counter"@, m.prompt_tokens) + metric_of(
            "moe_completion_tokens_total"@,
            "counter"@,
            m.completion_tokens,
        ) + metric_of("moe_forward_steps_total"@, "counter"@, m.steps) + metric_of(
            "moe_draft_tokens_total"@,
            "counter"@,
            m.drafted,
        ) + metric_of("moe_request_errors_total"@, "counter"@, m.errors) + metric_of(
            "moe_prefix_cache_tokens_reused_total"@,
            "counter"@,
            m.reused,
        ) + metric_of("moe_queued_requests"@, "gauge"@, queued),
{
}

} // verus!
