//! What the server decides and writes, without a socket in the way.

use moe::chat_eval::Halt;
use moe::emit::Emitter;
use moe::generate::{Outcome, Stop};
use moe::http::{self, Head, LineError};
use moe::json::{Json, Number};
use moe::parse::parse;
use moe::prompt::{ChatFormat, Prompting};
use moe::reply::{
    chunk_body, completion_body, embeddings_body, endpoint, health, models, stream_error, Choice, Endpoint, Metrics, TokenLog,
};
use moe::request::{asked_shape, chat, check_window, inputs, params, prompt};
use moe::slots::Slots;
use serde_json::Value;

fn doc(text: &str) -> Json {
    parse(text.as_bytes()).unwrap()
}

fn parsed(text: &str) -> Value {
    serde_json::from_str(text).unwrap_or_else(|e| panic!("{e}: {text}"))
}

#[test]
fn metadata_endpoints_answer() {
    assert_eq!(endpoint("GET", "/health", 0, 4), Endpoint::Health);
    assert_eq!(parsed(&health("fixture"))["status"], "ok");
    assert_eq!(endpoint("GET", "/v1/models", 0, 4), Endpoint::Models);
    assert_eq!(parsed(&models("fixture"))["data"][0]["id"], "fixture");
    assert_eq!(endpoint("GET", "/nope", 0, 4).refusal(), Some((404, "not found")));
    assert!(http::error(404, "not found", false).contains("not found"));
}

/// Anything but the paths that exist is refused, and a full queue before them.
#[test]
fn requests_lead_where_they_should() {
    assert_eq!(endpoint("POST", "/v1/completions", 0, 4), Endpoint::Completions);
    assert_eq!(endpoint("POST", "/v1/chat/completions", 3, 4), Endpoint::Chat);
    assert_eq!(endpoint("POST", "/v1/embeddings", 3, 4), Endpoint::Embeddings);
    assert_eq!(endpoint("POST", "/v1/completions", 4, 4).refusal(), Some((503, "server busy: too many queued requests")));
    assert_eq!(endpoint("POST", "/other", 0, 4), Endpoint::Missing);
    assert_eq!(endpoint("PUT", "/v1/completions", 0, 4).refusal(), Some((405, "method not allowed")));
    assert_eq!(endpoint("OPTIONS", "/any", 9, 4), Endpoint::Options);
    assert_eq!(endpoint("GET", "/metrics", 9, 4), Endpoint::Metrics);
    assert_eq!(Endpoint::Metrics.refusal(), None);
}

#[test]
fn bad_requests_are_refused_not_crashed() {
    let said = |r: Result<Vec<u32>, String>| r.unwrap_err();
    assert!(said(prompt(&doc(r#"{"prompt":{}}"#), None, None)).contains("must be a string or an array"));
    assert!(said(prompt(&doc(r#"{"prompt":[]}"#), None, None)).contains("must be a string or an array"));
    // Without a tokenizer, text has nothing to encode with.
    assert!(said(prompt(&doc(r#"{"prompt":"text"}"#), None, None)).contains("no tokenizer"));
    // A base model has no chat template, and guessing one would mis-prompt it.
    let body = doc(r#"{"messages":[{"role":"user","content":"hi"}]}"#);
    match chat(&body, None, None, None, None, &Vec::new()) {
        Err(Halt::Error(e)) => assert!(e.contains("no chat template"), "{e}"),
        _ => panic!("a chat without a template was answered"),
    }
    match chat(&doc("{}"), None, None, None, None, &Vec::new()) {
        Err(Halt::Error(e)) => assert_eq!(e, "messages must be an array"),
        _ => panic!("a chat without messages was answered"),
    }
    // Asking for more than the window holds is caught before any work.
    assert_eq!(prompt(&doc(r#"{"prompt":[1,2],"max_tokens":9999}"#), None, None), Ok(vec![1, 2]));
    assert_eq!(
        check_window(2, params(&doc(r#"{"prompt":[1,2],"max_tokens":9999}"#)).max_tokens, 64).unwrap(),
        "prompt of 2 tokens plus max_tokens 8192 exceeds the context window of 64"
    );
    assert_eq!(check_window(0, 1, 64).unwrap(), "empty prompt");
    assert_eq!(check_window(60, 4, 64), None);
}

/// Inputs keep their order; one may stand alone; bad shapes are refused rather than
/// half-answered.
#[test]
fn embedding_inputs_batch_in_order() {
    assert_eq!(inputs(&doc(r#"{"input":[[1,2,3],[7,8]]}"#), None, None, 64), Ok(vec![vec![1, 2, 3], vec![7, 8]]));
    assert_eq!(inputs(&doc(r#"{"input":[1,2,3]}"#), None, None, 64), Ok(vec![vec![1, 2, 3]]));
    for bad in ["{}", r#"{"input":[]}"#, r#"{"input":5}"#, r#"{"input":[[]]}"#] {
        assert!(inputs(&doc(bad), None, None, 64).is_err(), "{bad} was not refused");
    }
    assert!(inputs(&doc(r#"{"input":[[1,2,3]]}"#), None, None, 2).is_err());
    let one = Number::Float(0.5f64.to_bits(), "0.5".into());
    let v = parsed(&embeddings_body(&vec![vec![one], vec![Number::Pos(1), Number::Neg(-1)]], 5, "m"));
    assert_eq!(v["object"], "list");
    assert_eq!(v["usage"]["prompt_tokens"], 5);
    assert_eq!(v["data"][0]["embedding"][0], 0.5);
    assert_eq!(v["data"][1]["index"], 1);
    assert_eq!(v["data"][1]["embedding"][1], -1);
}

/// `n` and the alternatives are bounded, so a client cannot ask for a thousand.
#[test]
fn parameters_are_read_and_bounded() {
    let p = params(&doc("{}"));
    assert_eq!((p.max_tokens, p.top_k, p.seed, p.n, p.logprobs), (256, 0, None, 1, 0));
    assert!(!p.echo && !p.stream && p.stop.is_empty() && p.temperature.is_none());
    let p = params(&doc(
        r#"{"max_tokens":5,"n":3,"seed":5,"logprobs":4,"echo":true,"stream":true,"stop":["a","b"],"top_k":7,"temperature":0.5}"#,
    ));
    assert_eq!((p.max_tokens, p.n, p.seed, p.logprobs, p.top_k), (5, 3, Some(5), 4, 7));
    assert!(p.echo && p.stream && p.temperature.is_some());
    assert_eq!(p.stop, vec!["a", "b"]);
    assert_eq!(params(&doc(r#"{"n":500}"#)).n, 8);
    assert_eq!(params(&doc(r#"{"n":0}"#)).n, 1);
    assert_eq!(params(&doc(r#"{"logprobs":500}"#)).logprobs, 20);
    // The chat endpoint asks by a flag and a number.
    assert_eq!(params(&doc(r#"{"logprobs":true,"top_logprobs":3}"#)).logprobs, 3);
    assert_eq!(params(&doc(r#"{"logprobs":true}"#)).logprobs, 1);
    assert_eq!(params(&doc(r#"{"logprobs":false,"top_logprobs":3}"#)).logprobs, 0);
    assert_eq!(params(&doc(r#"{"stop":"end"}"#)).stop, vec!["end"]);
}

#[test]
fn shapes_are_asked_for_by_response_format() {
    assert!(asked_shape(&doc(r#"{"type":"json_object"}"#)).0.is_some());
    assert!(asked_shape(&doc(r#"{"type":"text"}"#)).0.is_none());
    let (g, note) = asked_shape(&doc(r#"{"type":"json_schema","json_schema":{"schema":{"type":"boolean"}}}"#));
    assert!(g.is_some() && note.is_none());
    let (g, note) = asked_shape(&doc(r#"{"type":"json_schema","json_schema":{"schema":{"enum":[]}}}"#));
    assert!(g.is_none());
    let note = note.unwrap();
    assert_eq!(note, "response_format schema unusable (enum with no members permits nothing); answering unconstrained");
}

fn log(token: &str, p: &str, top: &[(&str, &str)]) -> TokenLog {
    let num = |s: &str| Number::Float(s.parse::<f64>().unwrap().to_bits(), s.to_string());
    TokenLog { token: token.into(), logprob: num(p), top: top.iter().map(|(t, p)| (t.to_string(), num(p))).collect() }
}

/// The two endpoints report the same numbers, each in its own layout.
#[test]
fn logprobs_come_in_two_layouts() {
    let logs = || Some(vec![log("ab ", "-0.5", &[("ab ", "-0.5"), ("x", "-2.5")]), log("c", "-0.25", &[("c", "-0.25")])]);
    let choice = || Choice { text: "ab c".into(), finish: "length", logs: logs() };
    let v = parsed(&completion_body(false, &vec![choice()], 3, 2, "m", 7));
    let lp = &v["choices"][0]["logprobs"];
    assert_eq!(lp["tokens"][1], "c");
    assert_eq!(lp["token_logprobs"][0], -0.5);
    assert_eq!(lp["top_logprobs"][0]["x"], -2.5);
    // Offsets march forward by each token's length.
    assert_eq!((&lp["text_offset"][0], &lp["text_offset"][1]), (&Value::from(0), &Value::from(3)));
    assert_eq!(v["choices"][0]["text"], "ab c");
    assert_eq!(v["object"], "text_completion");
    assert_eq!(v["usage"]["total_tokens"], 5);

    let v = parsed(&completion_body(true, &vec![choice()], 3, 2, "m", 7));
    assert_eq!(v["choices"][0]["message"]["content"], "ab c");
    assert_eq!(v["choices"][0]["logprobs"]["content"][0]["token"], "ab ");
    assert_eq!(v["choices"][0]["logprobs"]["content"][0]["top_logprobs"][1]["logprob"], -2.5);
    assert_eq!(v["object"], "chat.completion");

    // Asking for none reports none rather than an empty object.
    let none = Choice { text: "\"x\"\n".into(), finish: "stop", logs: None };
    let v = parsed(&completion_body(false, &vec![none], 1, 1, "m", 7));
    assert!(v["choices"][0]["logprobs"].is_null());
    assert_eq!(v["choices"][0]["text"], "\"x\"\n");
}

#[test]
fn choices_keep_their_order() {
    let c = |t: &str| Choice { text: t.into(), finish: "length", logs: None };
    let v = parsed(&completion_body(false, &vec![c("a"), c("b"), c("c")], 3, 12, "m", 7));
    for (i, t) in ["a", "b", "c"].iter().enumerate() {
        assert_eq!(v["choices"][i]["index"], i);
        assert_eq!(v["choices"][i]["text"], *t);
    }
    assert_eq!(v["usage"]["completion_tokens"], 12);
}

/// /metrics is scrapeable and counts what happened.
#[test]
fn metrics_count_the_work_done() {
    let mut m = Metrics::default();
    let before = m.render(0);
    assert!(before.contains("# TYPE moe_requests_total counter"), "{before}");
    assert!(before.contains("moe_queued_requests"));
    let count = |text: &str, name: &str| -> u64 {
        text.lines()
            .find(|l| l.starts_with(name) && !l.starts_with('#'))
            .and_then(|l| l.split_whitespace().nth(1))
            .and_then(|v| v.parse().ok())
            .unwrap_or_else(|| panic!("no {name} in {text}"))
    };
    assert_eq!(count(&before, "moe_requests_total"), 0);
    m.answered(3);
    m.generated(&Outcome { stop: Stop::Length, tokens: 4, drafted: 0, accepted: 0, steps: 3 }, 2);
    m.embedded();
    m.refused();
    let after = m.render(5);
    assert_eq!(count(&after, "moe_requests_total"), 1);
    assert_eq!(count(&after, "moe_embedding_requests_total"), 1);
    assert_eq!(count(&after, "moe_prompt_tokens_total"), 3);
    assert_eq!(count(&after, "moe_completion_tokens_total"), 4);
    assert_eq!(count(&after, "moe_forward_steps_total"), 3);
    assert_eq!(count(&after, "moe_draft_tokens_total"), 0);
    assert_eq!(count(&after, "moe_request_errors_total"), 1);
    assert_eq!(count(&after, "moe_prefix_cache_tokens_reused_total"), 2);
    assert_eq!(count(&after, "moe_queued_requests"), 5);
}

/// Deltas, as the stream carries them, put together give the whole.
#[test]
fn streaming_deltas_reassemble_into_the_whole_completion() {
    let mut e = Emitter::new(Vec::new());
    let mut raw = http::sse_open(false);
    for (i, piece) in ["3 ", "11 ", "é\"", "5 "].iter().enumerate() {
        let delta = e.push(piece);
        raw.push_str(&http::sse(&chunk_body(false, &delta, i == 0, None, 0, "m", 1)));
    }
    raw.push_str(&http::sse(&chunk_body(false, &e.rest(), false, Some("length"), 0, "m", 1)));
    raw.push_str(&http::sse_close());

    let mut joined = String::new();
    let mut saw_done = false;
    let mut finish = None;
    for line in raw.lines().filter_map(|l| l.strip_prefix("data: ")) {
        if line == "[DONE]" {
            saw_done = true;
            continue;
        }
        let v = parsed(line);
        joined.push_str(v["choices"][0]["text"].as_str().unwrap_or(""));
        if let Some(f) = v["choices"][0]["finish_reason"].as_str() {
            finish = Some(f.to_string());
        }
    }
    assert!(saw_done, "stream never terminated with [DONE]");
    assert_eq!(finish.as_deref(), Some("length"));
    assert_eq!(joined, "3 11 é\"5 ");
    // A chat says who speaks in its first chunk.
    let v = parsed(&chunk_body(true, "hi", true, None, 0, "m", 1));
    assert_eq!(v["choices"][0]["delta"]["role"], "assistant");
    assert_eq!(v["choices"][0]["delta"]["content"], "hi");
    assert!(v["choices"][0]["finish_reason"].is_null());
    assert_eq!(parsed(&stream_error("a \"b\""))["error"]["message"], "a \"b\"");
}

/// A stop sequence is never shown, even when it arrives in pieces.
#[test]
fn stop_sequences_are_never_shown() {
    let mut e = Emitter::new(vec!["END".into()]);
    let mut shown = e.push("one E");
    shown.push_str(&e.push("N two EN"));
    assert_eq!(shown, "one EN two ");
    shown.push_str(&e.push("D three"));
    assert!(e.stopped());
    shown.push_str(&e.rest());
    assert_eq!(shown, "one EN two ");
    assert_eq!(e.text(), "one EN two ");
}

/// Extend, diverge, and walk backwards: what is kept is always a prefix, and never all.
#[test]
fn prefix_reuse_keeps_what_agrees() {
    let mut s = Slots::new(1, true);
    for (turn, kept) in [(vec![3, 11], 0), (vec![3, 11, 5, 40], 2), (vec![3, 11, 5, 40, 7, 1], 4), (vec![3, 11, 9, 9], 2), (vec![3, 11], 1)] {
        assert_eq!(s.take(&turn), (0, kept), "{turn:?}");
        assert_eq!(s.slots[0].history, turn[..kept].to_vec());
        s.put(0, turn);
    }
    let mut cold = Slots::new(1, false);
    cold.put(0, vec![3, 11]);
    assert_eq!(cold.take(&vec![3, 11, 5]), (0, 0));
}

/// Two conversations keep their caches; a third takes the one that is colder.
#[test]
fn slots_hold_conversations_apart() {
    let mut s = Slots::new(2, true);
    let (a, b) = (vec![1, 2, 3], vec![7, 8]);
    let (ka, _) = s.take(&a);
    s.put(ka, a.clone());
    let (kb, _) = s.take(&b);
    s.put(kb, b.clone());
    assert_ne!(ka, kb);
    assert_eq!(s.take(&vec![1, 2, 3, 4]), (ka, 3));
    s.put(ka, vec![1, 2, 3, 4]);
    assert_eq!(s.take(&vec![7, 8, 9]), (kb, 2));
    s.put(kb, vec![7, 8, 9]);
    assert_eq!(s.take(&vec![50]), (ka, 0));
    assert_eq!(Slots::new(0, true).slots.len(), 1);
}

#[test]
fn request_heads_are_read() {
    let mut h = Head::begin("POST /v1/completions?x=1 HTTP/1.1").unwrap();
    assert!(h.wants_line());
    h.header("Host: localhost").unwrap();
    h.header("Content-LENGTH:  12 ").unwrap();
    h.header("").unwrap();
    assert!(!h.wants_line());
    assert_eq!(h.body_len(), Ok(12));
    let r = h.with_body(b"{}".to_vec());
    assert_eq!((r.method.as_str(), r.route().as_str()), ("POST", "/v1/completions"));
    assert_eq!(Head::begin("GET").err().unwrap(), "malformed request line");
    let mut h = Head::begin("POST / HTTP/1.1").unwrap();
    assert_eq!(h.header("Content-Length: many").unwrap_err(), "bad content-length");
    assert_eq!(h.header("Transfer-Encoding: Chunked").unwrap_err(), "chunked request bodies are not supported");
    h.header("content-length: 16777217").unwrap();
    assert_eq!(h.body_len().unwrap_err(), "body too large");
    assert_eq!(http::line(b"GET / HTTP/1.1\r\n"), Ok("GET / HTTP/1.1".to_string()));
    assert_eq!(http::line(b""), Err(LineError::Closed));
    assert_eq!(http::line(&[0xff, 10]), Err(LineError::NotText));
    assert_eq!(http::line(&vec![b'a'; http::MAX_LINE]), Err(LineError::TooLong));
}

#[test]
fn responses_carry_their_length() {
    let r = http::json(200, "{\"a\":\"é\"}", true);
    assert!(r.starts_with("HTTP/1.1 200 OK\r\nContent-Type: application/json\r\nAccess-Control-Allow-Origin: *\r\n"), "{r}");
    assert!(r.contains("Content-Length: 10\r\n") && r.ends_with("Connection: close\r\n\r\n{\"a\":\"é\"}"), "{r}");
    assert!(!http::text(200, "x", false).contains("Allow-Origin"));
    let e = http::error(503, "a\nb", false);
    assert!(e.ends_with("{\"error\":{\"message\":\"a\\nb\",\"type\":\"server_error\"}}"), "{e}");
}

fn said(role: &str, content: &str) -> Json {
    Json::Obj(vec![("role".into(), Json::Str(role.into())), ("content".into(), Json::Str(content.into()))])
}

#[test]
fn chats_render_in_three_shapes() {
    let m = vec![said("system", "Be kind."), said("user", "Hi"), said("assistant", "Hello"), said("user", "Bye")];
    let f = ChatFormat::by_name("chatml").unwrap();
    assert_eq!(
        f.render(&m).unwrap(),
        "<|im_start|>system\nBe kind.<|im_end|>\n<|im_start|>user\nHi<|im_end|>\n<|im_start|>assistant\nHello<|im_end|>\n\
         <|im_start|>user\nBye<|im_end|>\n<|im_start|>assistant\n"
    );
    let f = ChatFormat::by_name("mistral").unwrap();
    let s = f.render(&m).unwrap();
    assert!(s.contains("Be kind.") && s.contains("[INST]") && !s.contains("system"), "{s}");
    assert!(f.render(&vec![said("wizard", "x")]).is_err());
    assert!(ChatFormat::by_name("other").is_none());
    // A further turn only appends.
    let f = ChatFormat::by_name("llama3").unwrap();
    let short = f.render(&m[..2].to_vec_json()).unwrap();
    let body = short.strip_suffix(f.generation).unwrap().to_string();
    assert!(f.render(&m).unwrap().starts_with(&body));
    assert_eq!(Prompting::Detected(f).turn_end(), Some("<|eot_id|>"));
}

/// Copies of messages, which have no `Clone` of their own.
trait Copies {
    fn to_vec_json(&self) -> Vec<Json>;
}

impl Copies for [Json] {
    fn to_vec_json(&self) -> Vec<Json> {
        self.iter().map(|j| j.copy()).collect()
    }
}

#[test]
fn templates_come_before_detection() {
    let (p, note) = Prompting::resolve(Some("{% for m in messages %}[{{ m.content }}]{% endfor %}"), None);
    let p = p.unwrap();
    assert!(note.is_none());
    assert_eq!(p.name(), "the checkpoint's own template");
    assert_eq!(p.render(&vec![said("user", "a"), said("user", "b")], "", "", &Vec::new()).ok().unwrap(), "[a][b]");
    assert_eq!(p.turn_end(), None);
    let (p, note) = Prompting::resolve(Some("{% nonsense %}"), None);
    assert!(p.is_none());
    assert!(note.unwrap().ends_with("); detecting instead"));
}
