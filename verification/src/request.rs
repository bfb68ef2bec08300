//! What a client asks for: the body of a request, read into parameters and token ids.

use vstd::prelude::*;
use vstd::string::*;
use crate::automaton::Shape;
use crate::chat_eval::{facts_view, jsons, AskV, Fact, Halt, HaltV};
use crate::float::Real;
use crate::grammar::{shape_of, Grammar};
use crate::json::{elements, Json, JsonV};
use crate::parse::{parse, parsed};
use crate::prompt::{string_view, tok_view, Prompting, PromptingV};
use crate::text::{decimal, decimal_of, join, join3};
use crate::tokenizer::{Tokenizer, TokenizerV};

verus! {

/// The most completions that one request may ask for.
pub const MAX_CHOICES: u64 = 8;

/// The most alternatives that are reported with a token.
pub const MAX_LOGPROBS: u64 = 20;

/// How an answer is to be generated. Numbers that need not be whole are kept as they were
/// written.
#[derive(Debug)]
pub struct Params {
    pub max_tokens: usize,
    pub temperature: Option<Real>,
    pub top_p: Option<Real>,
    pub frequency_penalty: Option<Real>,
    pub top_k: usize,
    pub seed: Option<u64>,
    pub stop: Vec<String>,
    /// How many completions are wanted.
    pub n: usize,
    /// Whether the prompt is put back in front.
    pub echo: bool,
    /// How many alternatives are reported with each token; 0 reports nothing.
    pub logprobs: usize,
    pub stream: bool,
}

/// The smaller of two numbers.
pub open spec fn at_most(n: u64, max: u64) -> u64 {
    if n < max {
        n
    } else {
        max
    }
}

/// A whole number under a key, or a default.
pub open spec fn whole_or(body: JsonV, key: Seq<char>, default: u64) -> u64 {
    match body.field(key).as_u64() {
        Some(n) => n,
        None => default,
    }
}

/// A truth value under a key, or false.
pub open spec fn flag(body: JsonV, key: Seq<char>) -> bool {
    body.field(key).as_bool() == Some(true)
}

/// The texts among the first `n` values.
pub open spec fn texts_among(v: Seq<JsonV>, n: nat) -> Seq<Seq<char>>
    decreases n,
{
    if n == 0 || n > v.len() {
        Seq::empty()
    } else {
        let rest = texts_among(v, (n - 1) as nat);
        match v[n - 1].as_str() {
            Some(s) => rest.push(s),
            None => rest,
        }
    }
}

/// The stop sequences that are asked for: one text, or the texts of a list.
pub open spec fn stops_of(v: JsonV) -> Seq<Seq<char>> {
    match v {
        JsonV::Str(s) => seq![s],
        JsonV::Arr(a) => texts_among(a, a.len()),
        _ => Seq::empty(),
    }
}

/// How many completions are wanted: one unless more are asked for, and never too many.
pub open spec fn choices_of(body: JsonV) -> u64 {
    let n = whole_or(body, "n"@, 1);
    if n == 0 {
        1
    } else {
        at_most(n, MAX_CHOICES)
    }
}

/// How many alternatives are reported with each token. A completion asks for a number of
/// them; a chat says that it wants any, and beside that how many.
pub open spec fn alternatives_of(body: JsonV) -> u64 {
    match body.field("logprobs"@).as_u64() {
        Some(n) => at_most(n, MAX_LOGPROBS),
        None => if flag(body, "logprobs"@) {
            let n = whole_or(body, "top_logprobs"@, 1);
            if n == 0 {
                1
            } else {
                at_most(n, MAX_LOGPROBS)
            }
        } else {
            0
        },
    }
}

/// What some strings hold.
pub open spec fn views(v: Seq<String>) -> Seq<Seq<char>> {
    Seq::new(v.len(), |i: int| v[i]@)
}

impl Params {
    /// Whether these are the parameters that a body asks for.
    pub open spec fn reads(self, body: JsonV) -> bool {
        &&& self.max_tokens == at_most(whole_or(body, "max_tokens"@, 256), 8192)
        &&& self.temperature == body.field("temperature"@).as_real()
        &&& self.top_p == body.field("top_p"@).as_real()
        &&& self.frequency_penalty == body.field("frequency_penalty"@).as_real()
        &&& self.top_k == whole_or(body, "top_k"@, 0) as usize
        &&& self.seed == body.field("seed"@).as_u64()
        &&& views(self.stop@) == stops_of(body.field("stop"@))
        &&& self.n == choices_of(body)
        &&& self.echo == flag(body, "echo"@)
        &&& self.logprobs == alternatives_of(body)
        &&& self.stream == flag(body, "stream"@)
    }
}

fn whole(body: &Json, key: &str, default: u64) -> (r: u64)
    ensures
        r == whole_or(body@, key@, default),
{
    match body.field(key).as_u64() {
        Some(n) => n,
        None => default,
    }
}

fn is_set(body: &Json, key: &str) -> (r: bool)
    ensures
        r == flag(body@, key@),
{
    match body.field(key).as_bool() {
        Some(b) => b,
        None => false,
    }
}

fn least(n: u64, max: u64) -> (r: u64)
    ensures
        r == at_most(n, max),
{
    if n < max {
        n
    } else {
        max
    }
}

fn stops(v: &Json) -> (r: Vec<String>)
    ensures
        views(r@) == stops_of(v@),
{
    let mut out: Vec<String> = Vec::new();
    match v.as_str() {
        Some(s) => {
            out.push(s.to_owned());
            assert(views(out@) =~= seq![s@]);
            return out;
        },
        None => {},
    }
    assert(views(out@) =~= Seq::empty());
    let n: usize = v.count();
    let ghost a = elements(v@);
    let mut i: usize = 0;
    while i < n
        invariant
            n == a.len(),
            a == elements(v@),
            i <= n,
            views(out@) == texts_among(a, i as nat),
        decreases n - i,
    {
        match v.item(i).as_str() {
            Some(s) => {
                let ghost before = views(out@);
                out.push(s.to_owned());
                assert(views(out@) =~= before.push(s@));
            },
            None => {},
        }
        i += 1;
    }
    out
}

/// Read the body of a request.
pub fn read_body(text: &[u8]) -> (r: Result<Json, String>)
    ensures
        match r {
            Ok(j) => parsed(text@) == Ok::<JsonV, Seq<char>>(j@),
            Err(e) => parsed(text@) is Err && e@ == "invalid JSON: "@ + parsed(text@)->Err_0,
        },
{
    match parse(text) {
        Ok(j) => Ok(j),
        Err(e) => Err(join("invalid JSON: ", e.as_str())),
    }
}

/// Read the parameters of a request.
pub fn params(body: &Json) -> (p: Params)
    ensures
        p.reads(body@),
{
    let n: u64 = whole(body, "n", 1);
    let count: u64 = if n == 0 {
        1
    } else {
        least(n, MAX_CHOICES)
    };
    let asked: u64 = match body.field("logprobs").as_u64() {
        Some(k) => least(k, MAX_LOGPROBS),
        None => if is_set(body, "logprobs") {
            let k: u64 = whole(body, "top_logprobs", 1);
            if k == 0 {
                1
            } else {
                least(k, MAX_LOGPROBS)
            }
        } else {
            0
        },
    };
    Params {
        max_tokens: least(whole(body, "max_tokens", 256), 8192) as usize,
        temperature: body.field("temperature").as_real(),
        top_p: body.field("top_p").as_real(),
        frequency_penalty: body.field("frequency_penalty").as_real(),
        top_k: #[verifier::truncate]
        (whole(body, "top_k", 0) as usize),
        seed: body.field("seed").as_u64(),
        stop: stops(body.field("stop")),
        n: count as usize,
        echo: is_set(body, "echo"),
        logprobs: asked as usize,
        stream: is_set(body, "stream"),
    }
}

/// No request gets more than the bounds, whatever it asks for, and none gets nothing.
pub proof fn law_requests_are_bounded(p: Params, body: JsonV)
    requires
        p.reads(body),
    ensures
        p.max_tokens <= 8192,
        1 <= p.n <= MAX_CHOICES,
        p.logprobs <= MAX_LOGPROBS,
{
}

/// The schema that a `json_schema` format carries.
pub open spec fn schema_in(rf: JsonV) -> JsonV {
    match rf.field("json_schema"@).get("schema"@) {
        Some(s) => s,
        None => rf.field("json_schema"@),
    }
}

/// The shape that a `response_format` asks for: `json_object` for any document,
/// `json_schema` for one with a declared shape. An unusable schema leaves the request
/// unconstrained rather than failing it, since refusing would be worse than answering in
/// free text.
pub open spec fn shape_asked(rf: JsonV) -> Option<Shape> {
    let kind = rf.field("type"@).as_str();
    if kind == Some("json_object"@) {
        Some(Shape::Any)
    } else if kind == Some("json_schema"@) {
        match shape_of(schema_in(rf), 0) {
            Ok(s) => Some(s),
            Err(_) => None,
        }
    } else {
        None
    }
}

/// What is said of a schema that is not usable.
pub open spec fn shape_note(rf: JsonV) -> Option<Seq<char>> {
    if rf.field("type"@).as_str() == Some("json_schema"@) {
        match shape_of(schema_in(rf), 0) {
            Ok(_) => None,
            Err(e) => Some("response_format schema unusable ("@ + (e + "); answering unconstrained"@)),
        }
    } else {
        None
    }
}

/// The shape that a `response_format` asks for, and a note where its schema is passed over.
pub fn asked_shape(rf: &Json) -> (r: (Option<Grammar>, Option<String>))
    ensures
        match r.0 {
            Some(g) => g.valid() && shape_asked(rf@) == Some(g.shape()),
            None => shape_asked(rf@) is None,
        },
        string_view(r.1) == shape_note(rf@),
{
    let kind: &Json = rf.field("type");
    proof {
        reveal_strlit("json_object");
        reveal_strlit("json_schema");
        assert("json_object"@[5] != "json_schema"@[5]);
    }
    if kind.is_str("json_object") {
        return (Some(Grammar::json()), None);
    }
    if kind.is_str("json_schema") {
        let given: &Json = rf.field("json_schema");
        let schema: &Json = match given.get("schema") {
            Some(s) => s,
            None => given,
        };
        return match Grammar::from_schema(schema) {
            Ok(g) => (Some(g), None),
            Err(e) => {
                let tail = join(e.as_str(), "); answering unconstrained");
                (None, Some(join("response_format schema unusable (", tail.as_str())))
            },
        };
    }
    (None, None)
}

/// Whether all values are whole numbers that are not negative.
pub open spec fn all_whole(v: Seq<JsonV>) -> bool {
    forall|i: int| 0 <= i < v.len() ==> (#[trigger] v[i]).as_u64() is Some
}

/// The token ids that some values are; what is no number stands for token zero.
pub open spec fn ids_of(v: Seq<JsonV>) -> Seq<u32> {
    Seq::new(
        v.len(),
        |i: int|
            match v[i].as_u64() {
                Some(n) => n as u32,
                None => 0,
            },
    )
}

/// The ids of a text, with the token that begins a sequence where one is asked for.
pub open spec fn encoded(tok: Option<TokenizerV>, text: Seq<char>, bos: Option<u32>) -> Result<Seq<u32>, Seq<char>> {
    match tok {
        Some(t) => Ok(t.encode(text, bos)),
        None => Err("no tokenizer: send prompt as an array of token ids"@),
    }
}

/// The ids that a completion continues: those of a text, or the ids themselves, which let
/// a client drive the model with no tokenizer at all.
pub open spec fn prompt_of(body: JsonV, tok: Option<TokenizerV>, bos: Option<u32>) -> Result<Seq<u32>, Seq<char>> {
    match body.field("prompt"@) {
        JsonV::Str(s) => encoded(tok, s, bos),
        JsonV::Arr(a) => if a.len() > 0 && all_whole(a) {
            Ok(ids_of(a))
        } else if a.len() == 1 && a[0].as_str() is Some {
            encoded(tok, a[0].as_str()->0, bos)
        } else {
            Err("prompt must be a string or an array of token ids"@)
        },
        _ => Err("prompt must be a string or an array of token ids"@),
    }
}

fn are_whole(v: &Json) -> (r: bool)
    ensures
        r == all_whole(elements(v@)),
{
    let n: usize = v.count();
    let mut i: usize = 0;
    while i < n
        invariant
            n == elements(v@).len(),
            i <= n,
            forall|k: int| 0 <= k < i ==> (#[trigger] elements(v@)[k]).as_u64() is Some,
        decreases n - i,
    {
        match v.item(i).as_u64() {
            Some(_) => {},
            None => {
                assert(elements(v@)[i as int].as_u64() is None);
                return false;
            },
        }
        i += 1;
    }
    true
}

fn ids(v: &Json) -> (r: Vec<u32>)
    ensures
        r@ == ids_of(elements(v@)),
{
    let mut out: Vec<u32> = Vec::new();
    let n: usize = v.count();
    let mut i: usize = 0;
    while i < n
        invariant
            n == elements(v@).len(),
            i <= n,
            out@ == ids_of(elements(v@)).take(i as int),
        decreases n - i,
    {
        let id: u32 = match v.item(i).as_u64() {
            Some(x) => #[verifier::truncate]
            (x as u32),
            None => 0,
        };
        out.push(id);
        i += 1;
        assert(ids_of(elements(v@)).take(i as int) =~= ids_of(elements(v@)).take(i - 1).push(id));
    }
    assert(out@ =~= ids_of(elements(v@)));
    out
}

/// Whether a tokenizer, where there is one, is sound.
pub open spec fn sound(tok: Option<&Tokenizer>) -> bool {
    match tok {
        Some(t) => t.valid(),
        None => true,
    }
}

fn encode(tok: Option<&Tokenizer>, text: &str, bos: Option<u32>) -> (r: Result<Vec<u32>, String>)
    requires
        sound(tok),
    ensures
        match r {
            Ok(v) => encoded(tok_view(tok), text@, bos) == Ok::<Seq<u32>, Seq<char>>(v@),
            Err(e) => encoded(tok_view(tok), text@, bos) == Err::<Seq<u32>, Seq<char>>(e@),
        },
{
    match tok {
        Some(t) => Ok(t.encode(text, bos)),
        None => Err("no tokenizer: send prompt as an array of token ids".to_owned()),
    }
}

/// The ids that a completion continues.
pub fn prompt(body: &Json, tok: Option<&Tokenizer>, bos: Option<u32>) -> (r: Result<Vec<u32>, String>)
    requires
        sound(tok),
    ensures
        match r {
            Ok(v) => prompt_of(body@, tok_view(tok), bos) == Ok::<Seq<u32>, Seq<char>>(v@),
            Err(e) => prompt_of(body@, tok_view(tok), bos) == Err::<Seq<u32>, Seq<char>>(e@),
        },
{
    let p: &Json = body.field("prompt");
    match p.as_str() {
        Some(s) => {
            return encode(tok, s, bos);
        },
        None => {},
    }
    let n: usize = p.count();
    if n > 0 && are_whole(p) {
        return Ok(ids(p));
    }
    if n == 1 {
        match p.item(0).as_str() {
            Some(s) => {
                return encode(tok, s, bos);
            },
            None => {},
        }
    }
    Err("prompt must be a string or an array of token ids".to_owned())
}

/// The text of a token, or nothing where there is no tokenizer or no token.
pub open spec fn token_text(tok: Option<TokenizerV>, id: Option<u32>) -> Seq<char> {
    match (tok, id) {
        (Some(t), Some(i)) => t.decode(seq![i]),
        _ => Seq::empty(),
    }
}

/// The ids that a chat continues: its messages, rendered as the checkpoint wants them. A
/// template emits its own opening token if it wants one, so none is added.
pub open spec fn chat_of(
    body: JsonV,
    chat: Option<PromptingV>,
    tok: Option<TokenizerV>,
    bos: Option<u32>,
    eos: Option<u32>,
    facts: Seq<(AskV, JsonV)>,
) -> Result<Seq<u32>, HaltV> {
    match body.field("messages"@) {
        JsonV::Arr(m) => match chat {
            None => Err(
                HaltV::Error(
                    "this checkpoint declares no chat template, so its prompt format is unknown. Pass --chat-format (chatml, llama3, mistral) or use /v1/completions"@,
                ),
            ),
            Some(c) => match c.rendered(m, token_text(tok, bos), token_text(tok, eos), facts) {
                Err(h) => Err(h),
                Ok(s) => match encoded(tok, s, None) {
                    Ok(v) => Ok(v),
                    Err(e) => Err(HaltV::Error(e)),
                },
            },
        },
        _ => Err(HaltV::Error("messages must be an array"@)),
    }
}

fn text_of_token(tok: Option<&Tokenizer>, id: Option<u32>) -> (r: String)
    requires
        sound(tok),
    ensures
        r@ == token_text(tok_view(tok), id),
{
    match (tok, id) {
        (Some(t), Some(i)) => t.decode_one(i),
        _ => {
            let r = String::new();
            assert(r@ =~= Seq::empty());
            r
        },
    }
}

/// The ids that a chat continues.
pub fn chat(
    body: &Json,
    format: Option<&Prompting>,
    tok: Option<&Tokenizer>,
    bos: Option<u32>,
    eos: Option<u32>,
    facts: &Vec<Fact>,
) -> (r: Result<Vec<u32>, Halt>)
    requires
        sound(tok),
    ensures
        ({
            let c = match format {
                Some(p) => Some(p@),
                None => None,
            };
            let want = chat_of(body@, c, tok_view(tok), bos, eos, facts_view(facts@));
            match r {
                Ok(v) => want == Ok::<Seq<u32>, HaltV>(v@),
                Err(h) => want == Err::<Seq<u32>, HaltV>(h@),
            }
        }),
{
    let messages: &Json = body.field("messages");
    match messages.as_array() {
        None => Err(Halt::Error("messages must be an array".to_owned())),
        Some(m) => match format {
            None => Err(
                Halt::Error(
                    "this checkpoint declares no chat template, so its prompt format is unknown. Pass --chat-format (chatml, llama3, mistral) or use /v1/completions".to_owned(),
                ),
            ),
            Some(c) => {
                let b = text_of_token(tok, bos);
                let e = text_of_token(tok, eos);
                assert(jsons(m@) =~= elements(messages@));
                match c.render(m, b.as_str(), e.as_str(), facts) {
                    Err(h) => Err(h),
                    Ok(s) => match encode(tok, s.as_str(), None) {
                        Ok(v) => Ok(v),
                        Err(e) => Err(Halt::Error(e)),
                    },
                }
            },
        },
    }
}

/// The ids of one input of a batch.
pub open spec fn input_of(v: JsonV, tok: Option<TokenizerV>, bos: Option<u32>) -> Result<Seq<u32>, Seq<char>> {
    match v {
        JsonV::Str(s) => encoded(tok, s, bos),
        JsonV::Arr(a) => Ok(ids_of(a)),
        _ => Err("each input must be a string or an array of token ids"@),
    }
}

/// One input of a batch, where it is not empty and the window holds it.
pub open spec fn checked_input(r: Result<Seq<u32>, Seq<char>>, i: int, ctx: int) -> Result<Seq<u32>, Seq<char>> {
    match r {
        Err(e) => Err(e),
        Ok(v) => if v.len() == 0 {
            Err("empty input"@)
        } else if v.len() > ctx {
            Err(
                "input "@ + decimal_of(i as nat) + (" is "@ + decimal_of(v.len()) + (" tokens, over the "@ + decimal_of(
                    ctx as nat,
                ) + " window"@)),
            )
        } else {
            Ok(v)
        },
    }
}

/// The first `n` inputs of a batch, or what is wrong with the first that is not in order.
pub open spec fn batch(v: Seq<JsonV>, tok: Option<TokenizerV>, bos: Option<u32>, ctx: int, n: nat) -> Result<
    Seq<Seq<u32>>,
    Seq<char>,
>
    decreases n,
{
    if n == 0 || n > v.len() {
        Ok(Seq::empty())
    } else {
        match batch(v, tok, bos, ctx, (n - 1) as nat) {
            Err(e) => Err(e),
            Ok(rest) => match checked_input(input_of(v[n - 1], tok, bos), n - 1, ctx) {
                Err(e) => Err(e),
                Ok(x) => Ok(rest.push(x)),
            },
        }
    }
}

/// The inputs to embed: a text, a list of texts, token ids, or a list of those.
pub open spec fn inputs_of(body: JsonV, tok: Option<TokenizerV>, bos: Option<u32>, ctx: int) -> Result<
    Seq<Seq<u32>>,
    Seq<char>,
> {
    match body.field("input"@) {
        JsonV::Str(s) => match checked_input(encoded(tok, s, bos), 0, ctx) {
            Err(e) => Err(e),
            Ok(v) => Ok(seq![v]),
        },
        JsonV::Arr(a) => if a.len() == 0 {
            Err("input is empty"@)
        } else if all_whole(a) {
            match checked_input(Ok(ids_of(a)), 0, ctx) {
                Err(e) => Err(e),
                Ok(v) => Ok(seq![v]),
            }
        } else {
            batch(a, tok, bos, ctx, a.len())
        },
        _ => Err("input must be a string, an array of strings, or token ids"@),
    }
}

/// What some lists hold.
pub open spec fn id_views(v: Seq<Vec<u32>>) -> Seq<Seq<u32>> {
    Seq::new(v.len(), |i: int| v[i]@)
}

fn check_input(r: Result<Vec<u32>, String>, i: usize, ctx: usize) -> (out: Result<Vec<u32>, String>)
    ensures
        ({
            let given = match r {
                Ok(v) => Ok::<Seq<u32>, Seq<char>>(v@),
                Err(e) => Err::<Seq<u32>, Seq<char>>(e@),
            };
            match out {
                Ok(v) => checked_input(given, i as int, ctx as int) == Ok::<Seq<u32>, Seq<char>>(v@),
                Err(e) => checked_input(given, i as int, ctx as int) == Err::<Seq<u32>, Seq<char>>(e@),
            }
        }),
{
    match r {
        Err(e) => Err(e),
        Ok(v) => if v.len() == 0 {
            Err("empty input".to_owned())
        } else if v.len() > ctx {
            let over = join3(" tokens, over the ", decimal(ctx as u64).as_str(), " window");
            let size = join3(" is ", decimal(v.len() as u64).as_str(), over.as_str());
            Err(join3("input ", decimal(i as u64).as_str(), size.as_str()))
        } else {
            Ok(v)
        },
    }
}

proof fn lemma_batch_fails(v: Seq<JsonV>, tok: Option<TokenizerV>, bos: Option<u32>, ctx: int, k: nat, n: nat)
    requires
        k <= n <= v.len(),
        batch(v, tok, bos, ctx, k) is Err,
    ensures
        batch(v, tok, bos, ctx, n) == batch(v, tok, bos, ctx, k),
    decreases n,
{
    if k < n {
        lemma_batch_fails(v, tok, bos, ctx, k, (n - 1) as nat);
    }
}

/// The inputs to embed.
#[verifier::loop_isolation(false)]
pub fn inputs(body: &Json, tok: Option<&Tokenizer>, bos: Option<u32>, ctx: usize) -> (r: Result<Vec<Vec<u32>>, String>)
    requires
        sound(tok),
    ensures
        match r {
            Ok(v) => inputs_of(body@, tok_view(tok), bos, ctx as int) == Ok::<Seq<Seq<u32>>, Seq<char>>(id_views(v@)),
            Err(e) => inputs_of(body@, tok_view(tok), bos, ctx as int) == Err::<Seq<Seq<u32>>, Seq<char>>(e@),
        },
{
    let input: &Json = body.field("input");
    let mut out: Vec<Vec<u32>> = Vec::new();
    match input.as_str() {
        Some(s) => {
            return match check_input(encode(tok, s, bos), 0, ctx) {
                Err(e) => Err(e),
                Ok(v) => {
                    out.push(v);
                    assert(id_views(out@) =~= seq![v@]);
                    Ok(out)
                },
            };
        },
        None => {},
    }
    match input.as_array() {
        None => Err("input must be a string, an array of strings, or token ids".to_owned()),
        Some(_) => {
            let n: usize = input.count();
            if n == 0 {
                return Err("input is empty".to_owned());
            }
            if are_whole(input) {
                return match check_input(Ok(ids(input)), 0, ctx) {
                    Err(e) => Err(e),
                    Ok(v) => {
                        out.push(v);
                        assert(id_views(out@) =~= seq![v@]);
                        Ok(out)
                    },
                };
            }
            let ghost a = elements(input@);
            let mut i: usize = 0;
            assert(id_views(out@) =~= Seq::empty());
            while i < n
                invariant
                    sound(tok),
                    a == elements(input@),
                    n == a.len(),
                    i <= n,
                    batch(a, tok_view(tok), bos, ctx as int, i as nat) == Ok::<Seq<Seq<u32>>, Seq<char>>(
                        id_views(out@),
                    ),
                decreases n - i,
            {
                let x: &Json = input.item(i);
                let one: Result<Vec<u32>, String> = match x.as_str() {
                    Some(s) => encode(tok, s, bos),
                    None => match x.as_array() {
                        Some(_) => Ok(ids(x)),
                        None => Err("each input must be a string or an array of token ids".to_owned()),
                    },
                };
                match check_input(one, i, ctx) {
                    Err(e) => {
                        proof {
                            lemma_batch_fails(a, tok_view(tok), bos, ctx as int, (i + 1) as nat, n as nat);
                        }
                        return Err(e);
                    },
                    Ok(v) => {
                        let ghost before = id_views(out@);
                        out.push(v);
                        assert(id_views(out@) =~= before.push(v@));
                    },
                }
                i += 1;
            }
            Ok(out)
        },
    }
}

/// Why a prompt does not fit the window, where it does not.
pub open spec fn misfit(prompt: nat, max_tokens: nat, ctx: nat) -> Option<Seq<char>> {
    if prompt == 0 {
        Some("empty prompt"@)
    } else if prompt + max_tokens > ctx {
        Some(
            "prompt of "@ + decimal_of(prompt) + (" tokens plus max_tokens "@ + decimal_of(max_tokens) + (
            " exceeds the context window of "@ + decimal_of(ctx))),
        )
    } else {
        None
    }
}

/// Why a prompt does not fit the window, where it does not.
pub fn check_window(prompt: usize, max_tokens: usize, ctx: usize) -> (r: Option<String>)
    ensures
        string_view(r) == misfit(prompt as nat, max_tokens as nat, ctx as nat),
{
    if prompt == 0 {
        Some("empty prompt".to_owned())
    } else if prompt > ctx || max_tokens > ctx - prompt {
        let over = join(" exceeds the context window of ", decimal(ctx as u64).as_str());
        let more = join3(" tokens plus max_tokens ", decimal(max_tokens as u64).as_str(), over.as_str());
        Some(join3("prompt of ", decimal(prompt as u64).as_str(), more.as_str()))
    } else {
        None
    }
}

} // verus!
