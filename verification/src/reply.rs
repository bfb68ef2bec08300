//! What a server answers: which request leads where, and the bodies of its replies.
//!
//! The entries of an object stand in the order of their keys.

use vstd::prelude::*;
use vstd::string::*;
use crate::emit::byte_len;
use crate::generate::Outcome;
use crate::json::{
    add_item, array, entry_views, item_views, number, object, put, string, text_of, Json, JsonV, Number, NumberV,
};
use crate::route::capped;
use crate::text::{bytes_of, decimal, decimal_of, join, join3, same};

verus! {

/// Where a request leads.
#[derive(Clone, Copy, PartialEq, Eq, Debug, Structural)]
pub enum Endpoint {
    /// A browser asks what it may send.
    Options,
    Health,
    Models,
    Metrics,
    Chat,
    Completions,
    Embeddings,
    /// There is nothing under that path.
    Missing,
    /// Nothing can be done by that method.
    NotAllowed,
    /// Too many requests wait already.
    Busy,
}

/// Where a request leads, given how many wait before it. Requests queue rather than run
/// concurrently, but the queue is bounded so that a burst fails fast instead of piling up
/// behind a slow generation.
pub open spec fn endpoint_of(method: Seq<char>, route: Seq<char>, waiting: int, max_queue: int) -> Endpoint {
    if method == "OPTIONS"@ {
        Endpoint::Options
    } else if method == "GET"@ {
        if route == "/health"@ {
            Endpoint::Health
        } else if route == "/v1/models"@ {
            Endpoint::Models
        } else if route == "/metrics"@ {
            Endpoint::Metrics
        } else {
            Endpoint::Missing
        }
    } else if method != "POST"@ {
        Endpoint::NotAllowed
    } else if waiting >= max_queue {
        Endpoint::Busy
    } else if route == "/v1/chat/completions"@ {
        Endpoint::Chat
    } else if route == "/v1/completions"@ {
        Endpoint::Completions
    } else if route == "/v1/embeddings"@ {
        Endpoint::Embeddings
    } else {
        Endpoint::Missing
    }
}

/// Where a request leads, given how many wait before it.
pub fn endpoint(method: &str, route: &str, waiting: usize, max_queue: usize) -> (r: Endpoint)
    ensures
        r == endpoint_of(method@, route@, waiting as int, max_queue as int),
{
    if same(method, "OPTIONS") {
        Endpoint::Options
    } else if same(method, "GET") {
        if same(route, "/health") {
            Endpoint::Health
        } else if same(route, "/v1/models") {
            Endpoint::Models
        } else if same(route, "/metrics") {
            Endpoint::Metrics
        } else {
            Endpoint::Missing
        }
    } else if !same(method, "POST") {
        Endpoint::NotAllowed
    } else if waiting >= max_queue {
        Endpoint::Busy
    } else if same(route, "/v1/chat/completions") {
        Endpoint::Chat
    } else if same(route, "/v1/completions") {
        Endpoint::Completions
    } else if same(route, "/v1/embeddings") {
        Endpoint::Embeddings
    } else {
        Endpoint::Missing
    }
}

impl Endpoint {
    /// The status and message of an endpoint that refuses.
    pub open spec fn refuses(self) -> Option<(u16, Seq<char>)> {
        match self {
            Endpoint::Missing => Some((404u16, "not found"@)),
            Endpoint::NotAllowed => Some((405u16, "method not allowed"@)),
            Endpoint::Busy => Some((503u16, "server busy: too many queued requests"@)),
            _ => None,
        }
    }

    /// The status and message of an endpoint that refuses.
    pub fn refusal(self) -> (r: Option<(u16, &'static str)>)
        ensures
            match r {
                Some(x) => self.refuses() == Some((x.0, x.1@)),
                None => self.refuses() is None,
            },
    {
        match self {
            Endpoint::Missing => Some((404, "not found")),
            Endpoint::NotAllowed => Some((405, "method not allowed")),
            Endpoint::Busy => Some((503, "server busy: too many queued requests")),
            _ => None,
        }
    }
}

/// A whole number as JSON.
pub open spec fn whole(n: u64) -> JsonV {
    JsonV::Num(NumberV::Pos(n))
}

/// That the server is well.
pub open spec fn health_of(model: Seq<char>) -> JsonV {
    JsonV::Obj(seq![("model"@, JsonV::Str(model)), ("status"@, JsonV::Str("ok"@))])
}

/// That the server is well.
pub fn health(model: &str) -> (r: String)
    ensures
        r@ == text_of(health_of(model@)),
{
    let mut v: Vec<(String, Json)> = Vec::new();
    assert(entry_views(v@) =~= Seq::empty());
    put(&mut v, "model", string(model));
    put(&mut v, "status", string("ok"));
    assert(entry_views(v@) =~= seq![("model"@, JsonV::Str(model@)), ("status"@, JsonV::Str("ok"@))]);
    object(v).text()
}

/// The one model that is served.
pub open spec fn models_of(model: Seq<char>) -> JsonV {
    let one = JsonV::Obj(
        seq![
            ("created"@, whole(0)),
            ("id"@, JsonV::Str(model)),
            ("object"@, JsonV::Str("model"@)),
            ("owned_by"@, JsonV::Str("moe"@)),
        ],
    );
    JsonV::Obj(seq![("data"@, JsonV::Arr(seq![one])), ("object"@, JsonV::Str("list"@))])
}

/// The one model that is served.
pub fn models(model: &str) -> (r: String)
    ensures
        r@ == text_of(models_of(model@)),
{
    let mut v: Vec<(String, Json)> = Vec::new();
    assert(entry_views(v@) =~= Seq::empty());
    put(&mut v, "created", number(0));
    put(&mut v, "id", string(model));
    put(&mut v, "object", string("model"));
    put(&mut v, "owned_by", string("moe"));
    let ghost e = seq![
        ("created"@, whole(0)),
        ("id"@, JsonV::Str(model@)),
        ("object"@, JsonV::Str("model"@)),
        ("owned_by"@, JsonV::Str("moe"@)),
    ];
    assert(entry_views(v@) =~= e);
    let mut data: Vec<Json> = Vec::new();
    assert(item_views(data@) =~= Seq::empty());
    add_item(&mut data, object(v));
    assert(item_views(data@) =~= seq![JsonV::Obj(e)]);
    let mut all: Vec<(String, Json)> = Vec::new();
    assert(entry_views(all@) =~= Seq::empty());
    put(&mut all, "data", array(data));
    put(&mut all, "object", string("list"));
    assert(entry_views(all@) =~= seq![
        ("data"@, JsonV::Arr(seq![JsonV::Obj(e)])),
        ("object"@, JsonV::Str("list"@)),
    ]);
    object(all).text()
}

/// What the tokens of a request come to.
pub open spec fn usage_of(prompt: u64, completion: u64) -> JsonV {
    JsonV::Obj(
        seq![
            ("completion_tokens"@, whole(completion)),
            ("prompt_tokens"@, whole(prompt)),
            ("total_tokens"@, whole(capped((prompt + completion) as nat))),
        ],
    )
}

fn usage(prompt: u64, completion: u64) -> (r: Json)
    ensures
        r@ == usage_of(prompt, completion),
{
    let mut v: Vec<(String, Json)> = Vec::new();
    assert(entry_views(v@) =~= Seq::empty());
    put(&mut v, "completion_tokens", number(completion));
    put(&mut v, "prompt_tokens", number(prompt));
    put(&mut v, "total_tokens", number(prompt.saturating_add(completion)));
    assert(entry_views(v@) =~= seq![
        ("completion_tokens"@, whole(completion)),
        ("prompt_tokens"@, whole(prompt)),
        ("total_tokens"@, whole(capped((prompt + completion) as nat))),
    ]);
    object(v)
}

/// A token of an answer, how likely the model held it to be, and what it held most likely
/// in its place, each as the logarithm of a probability.
#[derive(Debug)]
pub struct TokenLog {
    pub token: String,
    pub logprob: Number,
    pub top: Vec<(String, Number)>,
}

/// What a [`TokenLog`] holds.
pub struct TokenLogV {
    pub token: Seq<char>,
    pub logprob: NumberV,
    pub top: Seq<(Seq<char>, NumberV)>,
}

impl View for TokenLog {
    type V = TokenLogV;

    open spec fn view(&self) -> TokenLogV {
        TokenLogV {
            token: self.token@,
            logprob: self.logprob@,
            top: Seq::new(self.top@.len(), |i: int| (self.top@[i].0@, self.top@[i].1@)),
        }
    }
}

/// What some logs hold.
pub open spec fn log_views(v: Seq<TokenLog>) -> Seq<TokenLogV> {
    Seq::new(v.len(), |i: int| v[i]@)
}

/// Whether a key stands among some entries.
pub open spec fn has_key(v: Seq<(Seq<char>, JsonV)>, key: Seq<char>) -> bool {
    exists|i: int| 0 <= i < v.len() && (#[trigger] v[i]).0 == key
}

/// The first `n` alternatives under their texts, the first of those that share one.
pub open spec fn keyed(v: Seq<(Seq<char>, NumberV)>, n: nat) -> Seq<(Seq<char>, JsonV)>
    decreases n,
{
    if n == 0 || n > v.len() {
        Seq::empty()
    } else {
        let rest = keyed(v, (n - 1) as nat);
        if has_key(rest, v[n - 1].0) {
            rest
        } else {
            rest.push((v[n - 1].0, JsonV::Num(v[n - 1].1)))
        }
    }
}

/// Where the text of token `n` begins, in bytes, behind those before it.
pub open spec fn offset(v: Seq<TokenLogV>, n: nat) -> nat
    decreases n,
{
    if n == 0 || n > v.len() {
        0
    } else {
        offset(v, (n - 1) as nat) + byte_len(v[n - 1].token)
    }
}

/// The logs of a text completion: lists that run side by side.
pub open spec fn logs_of(v: Seq<TokenLogV>) -> JsonV {
    JsonV::Obj(
        seq![
            ("text_offset"@, JsonV::Arr(Seq::new(v.len(), |i: int| whole(capped(offset(v, i as nat)))))),
            ("token_logprobs"@, JsonV::Arr(Seq::new(v.len(), |i: int| JsonV::Num(v[i].logprob)))),
            ("tokens"@, JsonV::Arr(Seq::new(v.len(), |i: int| JsonV::Str(v[i].token)))),
            ("top_logprobs"@, JsonV::Arr(Seq::new(v.len(), |i: int| JsonV::Obj(keyed(v[i].top, v[i].top.len()))))),
        ],
    )
}

/// One token with its logarithm, as a chat reports it.
pub open spec fn pair_of(token: Seq<char>, logprob: NumberV) -> JsonV {
    JsonV::Obj(seq![("logprob"@, JsonV::Num(logprob)), ("token"@, JsonV::Str(token))])
}

/// The log of one token, as a chat reports it.
pub open spec fn entry_of(x: TokenLogV) -> JsonV {
    JsonV::Obj(
        seq![
            ("logprob"@, JsonV::Num(x.logprob)),
            ("token"@, JsonV::Str(x.token)),
            ("top_logprobs"@, JsonV::Arr(Seq::new(x.top.len(), |i: int| pair_of(x.top[i].0, x.top[i].1)))),
        ],
    )
}

/// The logs of a chat: one entry per token.
pub open spec fn chat_logs_of(v: Seq<TokenLogV>) -> JsonV {
    JsonV::Obj(seq![("content"@, JsonV::Arr(Seq::new(v.len(), |i: int| entry_of(v[i]))))])
}

fn copy_number(n: &Number) -> (r: Json)
    ensures
        r@ == JsonV::Num(n@),
{
    match n {
        Number::Pos(x) => Json::Num(Number::Pos(*x)),
        Number::Neg(x) => Json::Num(Number::Neg(*x)),
        Number::Float(b, t) => Json::Num(Number::Float(*b, t.clone())),
    }
}

fn is_key(v: &Vec<(String, Json)>, key: &str) -> (r: bool)
    ensures
        r == has_key(entry_views(v@), key@),
{
    let mut i: usize = 0;
    while i < v.len()
        invariant
            i <= v@.len(),
            forall|k: int| 0 <= k < i ==> (#[trigger] entry_views(v@)[k]).0 != key@,
        decreases v.len() - i,
    {
        if same(v[i].0.as_str(), key) {
            assert(entry_views(v@)[i as int].0 == key@);
            return true;
        }
        i += 1;
    }
    false
}

fn top_object(x: &TokenLog) -> (r: Json)
    ensures
        r@ == JsonV::Obj(keyed(x@.top, x@.top.len())),
{
    let mut v: Vec<(String, Json)> = Vec::new();
    let mut i: usize = 0;
    assert(entry_views(v@) =~= Seq::empty());
    while i < x.top.len()
        invariant
            i <= x.top@.len(),
            entry_views(v@) == keyed(x@.top, i as nat),
        decreases x.top.len() - i,
    {
        assert(x@.top[i as int] == (x.top@[i as int].0@, x.top@[i as int].1@));
        if !is_key(&v, x.top[i].0.as_str()) {
            put(&mut v, x.top[i].0.as_str(), copy_number(&x.top[i].1));
        }
        i += 1;
    }
    object(v)
}

fn logs(v: &Vec<TokenLog>) -> (r: Json)
    ensures
        r@ == logs_of(log_views(v@)),
{
    let ghost x = log_views(v@);
    let mut offsets: Vec<Json> = Vec::new();
    let mut probs: Vec<Json> = Vec::new();
    let mut tokens: Vec<Json> = Vec::new();
    let mut tops: Vec<Json> = Vec::new();
    let mut at: u64 = 0;
    let mut i: usize = 0;
    let ghost a = Seq::new(x.len(), |i: int| whole(capped(offset(x, i as nat))));
    let ghost b = Seq::new(x.len(), |i: int| JsonV::Num(x[i].logprob));
    let ghost c = Seq::new(x.len(), |i: int| JsonV::Str(x[i].token));
    let ghost d = Seq::new(x.len(), |i: int| JsonV::Obj(keyed(x[i].top, x[i].top.len())));
    assert(item_views(offsets@) =~= a.take(0));
    assert(item_views(probs@) =~= b.take(0));
    assert(item_views(tokens@) =~= c.take(0));
    assert(item_views(tops@) =~= d.take(0));
    while i < v.len()
        invariant
            i <= v@.len(),
            x == log_views(v@),
            x.len() == v@.len(),
            a == Seq::new(x.len(), |i: int| whole(capped(offset(x, i as nat)))),
            b == Seq::new(x.len(), |i: int| JsonV::Num(x[i].logprob)),
            c == Seq::new(x.len(), |i: int| JsonV::Str(x[i].token)),
            d == Seq::new(x.len(), |i: int| JsonV::Obj(keyed(x[i].top, x[i].top.len()))),
            at == capped(offset(x, i as nat)),
            item_views(offsets@) == a.take(i as int),
            item_views(probs@) == b.take(i as int),
            item_views(tokens@) == c.take(i as int),
            item_views(tops@) == d.take(i as int),
        decreases v.len() - i,
    {
        assert(x[i as int] == v@[i as int]@);
        add_item(&mut offsets, number(at));
        add_item(&mut probs, copy_number(&v[i].logprob));
        add_item(&mut tokens, string(v[i].token.as_str()));
        add_item(&mut tops, top_object(&v[i]));
        let n: usize = bytes_of(v[i].token.as_str()).len();
        at = at.saturating_add(n as u64);
        i += 1;
        assert(a.take(i as int) =~= a.take(i - 1).push(a[i - 1]));
        assert(b.take(i as int) =~= b.take(i - 1).push(b[i - 1]));
        assert(c.take(i as int) =~= c.take(i - 1).push(c[i - 1]));
        assert(d.take(i as int) =~= d.take(i - 1).push(d[i - 1]));
    }
    assert(a.take(i as int) =~= a);
    assert(b.take(i as int) =~= b);
    assert(c.take(i as int) =~= c);
    assert(d.take(i as int) =~= d);
    let mut all: Vec<(String, Json)> = Vec::new();
    assert(entry_views(all@) =~= Seq::empty());
    put(&mut all, "text_offset", array(offsets));
    put(&mut all, "token_logprobs", array(probs));
    put(&mut all, "tokens", array(tokens));
    put(&mut all, "top_logprobs", array(tops));
    assert(entry_views(all@) =~= seq![
        ("text_offset"@, JsonV::Arr(a)),
        ("token_logprobs"@, JsonV::Arr(b)),
        ("tokens"@, JsonV::Arr(c)),
        ("top_logprobs"@, JsonV::Arr(d)),
    ]);
    object(all)
}

fn pair(token: &str, logprob: &Number) -> (r: Json)
    ensures
        r@ == pair_of(token@, logprob@),
{
    let mut v: Vec<(String, Json)> = Vec::new();
    assert(entry_views(v@) =~= Seq::empty());
    put(&mut v, "logprob", copy_number(logprob));
    put(&mut v, "token", string(token));
    assert(entry_views(v@) =~= seq![("logprob"@, JsonV::Num(logprob@)), ("token"@, JsonV::Str(token@))]);
    object(v)
}

fn chat_entry(x: &TokenLog) -> (r: Json)
    ensures
        r@ == entry_of(x@),
{
    let ghost top = x@.top;
    let ghost want = Seq::new(top.len(), |i: int| pair_of(top[i].0, top[i].1));
    let mut tops: Vec<Json> = Vec::new();
    let mut i: usize = 0;
    assert(item_views(tops@) =~= want.take(0));
    while i < x.top.len()
        invariant
            i <= x.top@.len(),
            top == x@.top,
            top.len() == x.top@.len(),
            want == Seq::new(top.len(), |i: int| pair_of(top[i].0, top[i].1)),
            item_views(tops@) == want.take(i as int),
        decreases x.top.len() - i,
    {
        assert(top[i as int] == (x.top@[i as int].0@, x.top@[i as int].1@));
        add_item(&mut tops, pair(x.top[i].0.as_str(), &x.top[i].1));
        i += 1;
        assert(want.take(i as int) =~= want.take(i - 1).push(want[i - 1]));
    }
    assert(want.take(i as int) =~= want);
    let mut v: Vec<(String, Json)> = Vec::new();
    assert(entry_views(v@) =~= Seq::empty());
    put(&mut v, "logprob", copy_number(&x.logprob));
    put(&mut v, "token", string(x.token.as_str()));
    put(&mut v, "top_logprobs", array(tops));
    assert(entry_views(v@) =~= seq![
        ("logprob"@, JsonV::Num(x@.logprob)),
        ("token"@, JsonV::Str(x@.token)),
        ("top_logprobs"@, JsonV::Arr(want)),
    ]);
    object(v)
}

fn chat_logs(v: &Vec<TokenLog>) -> (r: Json)
    ensures
        r@ == chat_logs_of(log_views(v@)),
{
    let ghost x = log_views(v@);
    let ghost want = Seq::new(x.len(), |i: int| entry_of(x[i]));
    let mut items: Vec<Json> = Vec::new();
    let mut i: usize = 0;
    assert(item_views(items@) =~= want.take(0));
    while i < v.len()
        invariant
            i <= v@.len(),
            x == log_views(v@),
            x.len() == v@.len(),
            want == Seq::new(x.len(), |i: int| entry_of(x[i])),
            item_views(items@) == want.take(i as int),
        decreases v.len() - i,
    {
        assert(x[i as int] == v@[i as int]@);
        add_item(&mut items, chat_entry(&v[i]));
        i += 1;
        assert(want.take(i as int) =~= want.take(i - 1).push(want[i - 1]));
    }
    assert(want.take(i as int) =~= want);
    let mut all: Vec<(String, Json)> = Vec::new();
    assert(entry_views(all@) =~= Seq::empty());
    put(&mut all, "content", array(items));
    assert(entry_views(all@) =~= seq![("content"@, JsonV::Arr(want))]);
    object(all)
}

/// One completion.
#[derive(Debug)]
pub struct Choice {
    pub text: String,
    pub finish: &'static str,
    /// What is reported of each token, where that was asked for.
    pub logs: Option<Vec<TokenLog>>,
}

/// What a [`Choice`] holds.
pub struct ChoiceV {
    pub text: Seq<char>,
    pub finish: Seq<char>,
    pub logs: Option<Seq<TokenLogV>>,
}

impl View for Choice {
    type V = ChoiceV;

    open spec fn view(&self) -> ChoiceV {
        ChoiceV {
            text: self.text@,
            finish: self.finish@,
            logs: match self.logs {
                Some(v) => Some(log_views(v@)),
                None => None,
            },
        }
    }
}

/// What some choices hold.
pub open spec fn choice_views(v: Seq<Choice>) -> Seq<ChoiceV> {
    Seq::new(v.len(), |i: int| v[i]@)
}

/// The entries that every choice begins with.
pub open spec fn choice_head(chat: bool, x: ChoiceV, i: int) -> Seq<(Seq<char>, JsonV)> {
    let head = seq![("finish_reason"@, JsonV::Str(x.finish)), ("index"@, whole(i as u64))];
    match x.logs {
        None => head,
        Some(v) => head.push(
            (
                "logprobs"@,
                if chat {
                    chat_logs_of(v)
                } else {
                    logs_of(v)
                },
            ),
        ),
    }
}

/// One completion, in the layout of a chat or of a text.
pub open spec fn choice_of(chat: bool, x: ChoiceV, i: int) -> JsonV {
    let head = choice_head(chat, x, i);
    JsonV::Obj(
        if chat {
            head.push(
                (
                    "message"@,
                    JsonV::Obj(seq![("content"@, JsonV::Str(x.text)), ("role"@, JsonV::Str("assistant"@))]),
                ),
            )
        } else {
            head.push(("text"@, JsonV::Str(x.text)))
        },
    )
}

fn choice(chat: bool, x: &Choice, i: usize) -> (r: Json)
    ensures
        r@ == choice_of(chat, x@, i as int),
{
    let mut v: Vec<(String, Json)> = Vec::new();
    assert(entry_views(v@) =~= Seq::empty());
    put(&mut v, "finish_reason", string(x.finish));
    put(&mut v, "index", number(i as u64));
    assert(entry_views(v@) =~= seq![("finish_reason"@, JsonV::Str(x@.finish)), ("index"@, whole(i as u64))]);
    match &x.logs {
        None => {},
        Some(l) => {
            let j = if chat {
                chat_logs(l)
            } else {
                logs(l)
            };
            put(&mut v, "logprobs", j);
        },
    }
    if chat {
        let mut m: Vec<(String, Json)> = Vec::new();
        assert(entry_views(m@) =~= Seq::empty());
        put(&mut m, "content", string(x.text.as_str()));
        put(&mut m, "role", string("assistant"));
        assert(entry_views(m@) =~= seq![
            ("content"@, JsonV::Str(x@.text)),
            ("role"@, JsonV::Str("assistant"@)),
        ]);
        put(&mut v, "message", object(m));
    } else {
        put(&mut v, "text", string(x.text.as_str()));
    }
    object(v)
}

/// The identity of an answer.
pub open spec fn answer_id(now: u64) -> Seq<char> {
    "cmpl-"@ + decimal_of(now as nat)
}

/// An answer with some choices.
pub open spec fn completion_of(
    chat: bool,
    choices: Seq<ChoiceV>,
    prompt_tokens: u64,
    tokens: u64,
    model: Seq<char>,
    now: u64,
) -> JsonV {
    JsonV::Obj(
        seq![
            ("choices"@, JsonV::Arr(Seq::new(choices.len(), |i: int| choice_of(chat, choices[i], i)))),
            ("created"@, whole(now)),
            ("id"@, JsonV::Str(answer_id(now))),
            ("model"@, JsonV::Str(model)),
            (
                "object"@,
                JsonV::Str(
                    if chat {
                        "chat.completion"@
                    } else {
                        "text_completion"@
                    },
                ),
            ),
            ("usage"@, usage_of(prompt_tokens, tokens)),
        ],
    )
}

/// An answer with some choices.
pub fn completion_body(
    chat: bool,
    choices: &Vec<Choice>,
    prompt_tokens: u64,
    tokens: u64,
    model: &str,
    now: u64,
) -> (r: String)
    ensures
        r@ == text_of(completion_of(chat, choice_views(choices@), prompt_tokens, tokens, model@, now)),
{
    let ghost x = choice_views(choices@);
    let ghost want = Seq::new(x.len(), |i: int| choice_of(chat, x[i], i));
    let mut items: Vec<Json> = Vec::new();
    let mut i: usize = 0;
    assert(item_views(items@) =~= want.take(0));
    while i < choices.len()
        invariant
            i <= choices@.len(),
            x == choice_views(choices@),
            x.len() == choices@.len(),
            want == Seq::new(x.len(), |i: int| choice_of(chat, x[i], i)),
            item_views(items@) == want.take(i as int),
        decreases choices.len() - i,
    {
        assert(x[i as int] == choices@[i as int]@);
        add_item(&mut items, choice(chat, &choices[i], i));
        i += 1;
        assert(want.take(i as int) =~= want.take(i - 1).push(want[i - 1]));
    }
    assert(want.take(i as int) =~= want);
    let kind: &str = if chat {
        "chat.completion"
    } else {
        "text_completion"
    };
    let mut v: Vec<(String, Json)> = Vec::new();
    assert(entry_views(v@) =~= Seq::empty());
    put(&mut v, "choices", array(items));
    put(&mut v, "created", number(now));
    let id = join("cmpl-", decimal(now).as_str());
    put(&mut v, "id", string(id.as_str()));
    put(&mut v, "model", string(model));
    put(&mut v, "object", string(kind));
    put(&mut v, "usage", usage(prompt_tokens, tokens));
    assert(entry_views(v@) =~= seq![
        ("choices"@, JsonV::Arr(want)),
        ("created"@, whole(now)),
        ("id"@, JsonV::Str(answer_id(now))),
        ("model"@, JsonV::Str(model@)),
        ("object"@, JsonV::Str(kind@)),
        ("usage"@, usage_of(prompt_tokens, tokens)),
    ]);
    object(v).text()
}

/// Why an answer ended, or null while it has not.
pub open spec fn ending(finish: Option<Seq<char>>) -> JsonV {
    match finish {
        Some(f) => JsonV::Str(f),
        None => JsonV::Null,
    }
}

/// What a chat adds: its role at the start, and text where there is some.
pub open spec fn delta_of(delta: Seq<char>, first: bool) -> Seq<(Seq<char>, JsonV)> {
    let text = if delta.len() > 0 {
        seq![("content"@, JsonV::Str(delta))]
    } else {
        Seq::empty()
    };
    if first {
        text.push(("role"@, JsonV::Str("assistant"@)))
    } else {
        text
    }
}

/// Part of an answer on its way.
pub open spec fn chunk_of(
    chat: bool,
    delta: Seq<char>,
    first: bool,
    finish: Option<Seq<char>>,
    index: u64,
    model: Seq<char>,
    now: u64,
) -> JsonV {
    let choice = JsonV::Obj(
        if chat {
            seq![
                ("delta"@, JsonV::Obj(delta_of(delta, first))),
                ("finish_reason"@, ending(finish)),
                ("index"@, whole(index)),
            ]
        } else {
            seq![("finish_reason"@, ending(finish)), ("index"@, whole(index)), ("text"@, JsonV::Str(delta))]
        },
    );
    JsonV::Obj(
        seq![
            ("choices"@, JsonV::Arr(seq![choice])),
            ("created"@, whole(now)),
            ("id"@, JsonV::Str(answer_id(now))),
            ("model"@, JsonV::Str(model)),
            (
                "object"@,
                JsonV::Str(
                    if chat {
                        "chat.completion.chunk"@
                    } else {
                        "text_completion"@
                    },
                ),
            ),
        ],
    )
}

fn end_of(finish: Option<&str>) -> (r: Json)
    ensures
        r@ == ending(crate::prompt::str_view(finish)),
{
    match finish {
        Some(f) => string(f),
        None => Json::Null,
    }
}

fn chunk_choice(chat: bool, delta: &str, first: bool, finish: Option<&str>, index: u64) -> (r: Json)
    ensures
        r@ == JsonV::Obj(
            if chat {
                seq![
                    ("delta"@, JsonV::Obj(delta_of(delta@, first))),
                    ("finish_reason"@, ending(crate::prompt::str_view(finish))),
                    ("index"@, whole(index)),
                ]
            } else {
                seq![
                    ("finish_reason"@, ending(crate::prompt::str_view(finish))),
                    ("index"@, whole(index)),
                    ("text"@, JsonV::Str(delta@)),
                ]
            },
        ),
{
    let mut v: Vec<(String, Json)> = Vec::new();
    assert(entry_views(v@) =~= Seq::empty());
    if chat {
        let mut d: Vec<(String, Json)> = Vec::new();
        assert(entry_views(d@) =~= Seq::empty());
        if !delta.is_empty() {
            put(&mut d, "content", string(delta));
            assert(entry_views(d@) =~= seq![("content"@, JsonV::Str(delta@))]);
        }
        if first {
            put(&mut d, "role", string("assistant"));
        }
        assert(entry_views(d@) =~= delta_of(delta@, first));
        put(&mut v, "delta", object(d));
        put(&mut v, "finish_reason", end_of(finish));
        put(&mut v, "index", number(index));
        assert(entry_views(v@) =~= seq![
            ("delta"@, JsonV::Obj(delta_of(delta@, first))),
            ("finish_reason"@, ending(crate::prompt::str_view(finish))),
            ("index"@, whole(index)),
        ]);
    } else {
        put(&mut v, "finish_reason", end_of(finish));
        put(&mut v, "index", number(index));
        put(&mut v, "text", string(delta));
        assert(entry_views(v@) =~= seq![
            ("finish_reason"@, ending(crate::prompt::str_view(finish))),
            ("index"@, whole(index)),
            ("text"@, JsonV::Str(delta@)),
        ]);
    }
    object(v)
}

/// Part of an answer on its way.
pub fn chunk_body(
    chat: bool,
    delta: &str,
    first: bool,
    finish: Option<&str>,
    index: u64,
    model: &str,
    now: u64,
) -> (r: String)
    ensures
        r@ == text_of(chunk_of(chat, delta@, first, crate::prompt::str_view(finish), index, model@, now)),
{
    let one = chunk_choice(chat, delta, first, finish, index);
    let ghost c = one@;
    let mut items: Vec<Json> = Vec::new();
    assert(item_views(items@) =~= Seq::empty());
    add_item(&mut items, one);
    assert(item_views(items@) =~= seq![c]);
    let kind: &str = if chat {
        "chat.completion.chunk"
    } else {
        "text_completion"
    };
    let mut v: Vec<(String, Json)> = Vec::new();
    assert(entry_views(v@) =~= Seq::empty());
    put(&mut v, "choices", array(items));
    put(&mut v, "created", number(now));
    let id = join("cmpl-", decimal(now).as_str());
    put(&mut v, "id", string(id.as_str()));
    put(&mut v, "model", string(model));
    put(&mut v, "object", string(kind));
    assert(entry_views(v@) =~= seq![
        ("choices"@, JsonV::Arr(seq![c])),
        ("created"@, whole(now)),
        ("id"@, JsonV::Str(answer_id(now))),
        ("model"@, JsonV::Str(model@)),
        ("object"@, JsonV::Str(kind@)),
    ]);
    object(v).text()
}

/// An error inside a stream that is already open.
pub open spec fn stream_error_of(message: Seq<char>) -> JsonV {
    JsonV::Obj(seq![("error"@, JsonV::Obj(seq![("message"@, JsonV::Str(message))]))])
}

/// An error inside a stream that is already open.
pub fn stream_error(message: &str) -> (r: String)
    ensures
        r@ == text_of(stream_error_of(message@)),
{
    let mut m: Vec<(String, Json)> = Vec::new();
    assert(entry_views(m@) =~= Seq::empty());
    put(&mut m, "message", string(message));
    assert(entry_views(m@) =~= seq![("message"@, JsonV::Str(message@))]);
    let mut v: Vec<(String, Json)> = Vec::new();
    assert(entry_views(v@) =~= Seq::empty());
    put(&mut v, "error", object(m));
    assert(entry_views(v@) =~= seq![("error"@, JsonV::Obj(seq![("message"@, JsonV::Str(message@))]))]);
    object(v).text()
}

/// One vector of a batch.
pub open spec fn vector_of(v: Seq<NumberV>, i: int) -> JsonV {
    JsonV::Obj(
        seq![
            ("embedding"@, JsonV::Arr(Seq::new(v.len(), |k: int| JsonV::Num(v[k])))),
            ("index"@, whole(i as u64)),
            ("object"@, JsonV::Str("embedding"@)),
        ],
    )
}

/// The vectors of a batch, in the order of their inputs.
pub open spec fn embeddings_of(v: Seq<Seq<NumberV>>, total: u64, model: Seq<char>) -> JsonV {
    JsonV::Obj(
        seq![
            ("data"@, JsonV::Arr(Seq::new(v.len(), |i: int| vector_of(v[i], i)))),
            ("model"@, JsonV::Str(model)),
            ("object"@, JsonV::Str("list"@)),
            ("usage"@, JsonV::Obj(seq![("prompt_tokens"@, whole(total)), ("total_tokens"@, whole(total))])),
        ],
    )
}

/// What some numbers hold.
pub open spec fn number_views(v: Seq<Number>) -> Seq<NumberV> {
    Seq::new(v.len(), |i: int| v[i]@)
}

/// What some vectors hold.
pub open spec fn vector_views(v: Seq<Vec<Number>>) -> Seq<Seq<NumberV>> {
    Seq::new(v.len(), |i: int| number_views(v[i]@))
}

fn vector(v: &Vec<Number>, i: usize) -> (r: Json)
    ensures
        r@ == vector_of(number_views(v@), i as int),
{
    let ghost x = number_views(v@);
    let ghost want = Seq::new(x.len(), |k: int| JsonV::Num(x[k]));
    let mut items: Vec<Json> = Vec::new();
    let mut k: usize = 0;
    assert(item_views(items@) =~= want.take(0));
    while k < v.len()
        invariant
            k <= v@.len(),
            x == number_views(v@),
            x.len() == v@.len(),
            want == Seq::new(x.len(), |k: int| JsonV::Num(x[k])),
            item_views(items@) == want.take(k as int),
        decreases v.len() - k,
    {
        add_item(&mut items, copy_number(&v[k]));
        k += 1;
        assert(want.take(k as int) =~= want.take(k - 1).push(want[k - 1]));
    }
    assert(want.take(k as int) =~= want);
    let mut all: Vec<(String, Json)> = Vec::new();
    assert(entry_views(all@) =~= Seq::empty());
    put(&mut all, "embedding", array(items));
    put(&mut all, "index", number(i as u64));
    put(&mut all, "object", string("embedding"));
    assert(entry_views(all@) =~= seq![
        ("embedding"@, JsonV::Arr(want)),
        ("index"@, whole(i as u64)),
        ("object"@, JsonV::Str("embedding"@)),
    ]);
    object(all)
}

/// The vectors of a batch, in the order of their inputs.
pub fn embeddings_body(v: &Vec<Vec<Number>>, total: u64, model: &str) -> (r: String)
    ensures
        r@ == text_of(embeddings_of(vector_views(v@), total, model@)),
{
    let ghost x = vector_views(v@);
    let ghost want = Seq::new(x.len(), |i: int| vector_of(x[i], i));
    let mut items: Vec<Json> = Vec::new();
    let mut i: usize = 0;
    assert(item_views(items@) =~= want.take(0));
    while i < v.len()
        invariant
            i <= v@.len(),
            x == vector_views(v@),
            x.len() == v@.len(),
            want == Seq::new(x.len(), |i: int| vector_of(x[i], i)),
            item_views(items@) == want.take(i as int),
        decreases v.len() - i,
    {
        add_item(&mut items, vector(&v[i], i));
        i += 1;
        assert(want.take(i as int) =~= want.take(i - 1).push(want[i - 1]));
    }
    assert(want.take(i as int) =~= want);
    let mut u: Vec<(String, Json)> = Vec::new();
    assert(entry_views(u@) =~= Seq::empty());
    put(&mut u, "prompt_tokens", number(total));
    put(&mut u, "total_tokens", number(total));
    assert(entry_views(u@) =~= seq![("prompt_tokens"@, whole(total)), ("total_tokens"@, whole(total))]);
    let mut all: Vec<(String, Json)> = Vec::new();
    assert(entry_views(all@) =~= Seq::empty());
    put(&mut all, "data", array(items));
    put(&mut all, "model", string(model));
    put(&mut all, "object", string("list"));
    put(&mut all, "usage", object(u));
    assert(entry_views(all@) =~= seq![
        ("data"@, JsonV::Arr(want)),
        ("model"@, JsonV::Str(model@)),
        ("object"@, JsonV::Str("list"@)),
        ("usage"@, JsonV::Obj(seq![("prompt_tokens"@, whole(total)), ("total_tokens"@, whole(total))])),
    ]);
    object(all).text()
}

/// What a server counts.
#[derive(Clone, Copy, PartialEq, Eq, Debug, Structural)]
pub struct Metrics {
    /// Requests that were answered.
    pub requests: u64,
    pub embeddings: u64,
    pub prompt_tokens: u64,
    pub completion_tokens: u64,
    pub steps: u64,
    pub drafted: u64,
    /// Requests that were refused.
    pub errors: u64,
    /// Prompt tokens that a cache already held.
    pub reused: u64,
}

impl Default for Metrics {
    fn default() -> (r: Metrics)
        ensures
            r == (Metrics {
                requests: 0,
                embeddings: 0,
                prompt_tokens: 0,
                completion_tokens: 0,
                steps: 0,
                drafted: 0,
                errors: 0,
                reused: 0,
            }),
    {
        Metrics {
            requests: 0,
            embeddings: 0,
            prompt_tokens: 0,
            completion_tokens: 0,
            steps: 0,
            drafted: 0,
            errors: 0,
            reused: 0,
        }
    }
}

/// One counter or gauge, in the exposition format that Prometheus scrapes.
pub open spec fn metric_of(name: Seq<char>, kind: Seq<char>, value: u64) -> Seq<char> {
    ("# TYPE "@ + name + (" "@ + kind + "\n"@)) + (name + " "@ + (decimal_of(value as nat) + "\n"@))
}

fn metric(name: &str, kind: &str, value: u64) -> (r: String)
    ensures
        r@ == metric_of(name@, kind@, value),
{
    let line = join3(" ", kind, "\n");
    let head = join3("# TYPE ", name, line.as_str());
    let count = join(decimal(value).as_str(), "\n");
    let body = join3(name, " ", count.as_str());
    join(head.as_str(), body.as_str())
}

impl Metrics {
    /// Everything counted, and how many requests wait.
    pub open spec fn text(self, queued: u64) -> Seq<char> {
        metric_of("moe_requests_total"@, "counter"@, self.requests) + metric_of(
            "moe_embedding_requests_total"@,
            "counter"@,
            self.embeddings,
        ) + metric_of("moe_prompt_tokens_total"@, "counter"@, self.prompt_tokens) + metric_of(
            "moe_completion_tokens_total"@,
            "counter"@,
            self.completion_tokens,
        ) + metric_of("moe_forward_steps_total"@, "counter"@, self.steps) + metric_of(
            "moe_draft_tokens_total"@,
            "counter"@,
            self.drafted,
        ) + metric_of("moe_request_errors_total"@, "counter"@, self.errors) + metric_of(
            "moe_prefix_cache_tokens_reused_total"@,
            "counter"@,
            self.reused,
        ) + metric_of("moe_queued_requests"@, "gauge"@, queued)
    }

    /// Everything counted, and how many requests wait.
    pub fn render(&self, queued: u64) -> (r: String)
        ensures
            r@ == self.text(queued),
    {
        let mut out = metric("moe_requests_total", "counter", self.requests);
        out.append(metric("moe_embedding_requests_total", "counter", self.embeddings).as_str());
        out.append(metric("moe_prompt_tokens_total", "counter", self.prompt_tokens).as_str());
        out.append(metric("moe_completion_tokens_total", "counter", self.completion_tokens).as_str());
        out.append(metric("moe_forward_steps_total", "counter", self.steps).as_str());
        out.append(metric("moe_draft_tokens_total", "counter", self.drafted).as_str());
        out.append(metric("moe_request_errors_total", "counter", self.errors).as_str());
        out.append(metric("moe_prefix_cache_tokens_reused_total", "counter", self.reused).as_str());
        out.append(metric("moe_queued_requests", "gauge", queued).as_str());
        out
    }

    /// Count a request that was answered by some generations together.
    pub fn answered(&mut self, prompt: u64)
        ensures
            *final(self) == (Metrics {
                requests: capped((old(self).requests + 1) as nat),
                prompt_tokens: capped((old(self).prompt_tokens + prompt) as nat),
                ..*old(self)
            }),
    {
        self.requests = self.requests.saturating_add(1);
        self.prompt_tokens = self.prompt_tokens.saturating_add(prompt);
    }

    /// Count one generation, and what of its prompt a cache already held.
    pub fn generated(&mut self, o: &Outcome, reused: u64)
        ensures
            *final(self) == (Metrics {
                completion_tokens: capped((old(self).completion_tokens + o.tokens) as nat),
                steps: capped((old(self).steps + o.steps) as nat),
                drafted: capped((old(self).drafted + o.drafted) as nat),
                reused: capped((old(self).reused + reused) as nat),
                ..*old(self)
            }),
    {
        self.completion_tokens = self.completion_tokens.saturating_add(o.tokens as u64);
        self.steps = self.steps.saturating_add(o.steps as u64);
        self.drafted = self.drafted.saturating_add(o.drafted as u64);
        self.reused = self.reused.saturating_add(reused);
    }

    /// Count a request that was embedded.
    pub fn embedded(&mut self)
        ensures
            *final(self) == (Metrics { embeddings: capped((old(self).embeddings + 1) as nat), ..*old(self) }),
    {
        self.embeddings = self.embeddings.saturating_add(1);
    }

    /// Count a request that was refused.
    pub fn refused(&mut self)
        ensures
            *final(self) == (Metrics { errors: capped((old(self).errors + 1) as nat), ..*old(self) }),
    {
        self.errors = self.errors.saturating_add(1);
    }
}

} // verus!
