//! Every parser that reads what a file holds must fail, never panic.
//!
//! The packed `.moe` header, the safetensors header and GGUF hold bytes the user did not
//! write; a `tokenizer.json` and a chat template arrive inside downloaded checkpoints. They
//! are swept deterministically.

use moe::chat_eval::{Ask, Fact, Halt};
use moe::json::{Json, Number};
use moe::parse::parse;
use moe::store::{packed_header, preamble, shard_header, Container, Refusal};
use moe::{Gguf, Grammar, Model, Store, Template, Tokenizer};
use serde_json::Value;

fn json(v: &Value) -> Json {
    match v {
        Value::Null => Json::Null,
        Value::Bool(b) => Json::Bool(*b),
        Value::Number(n) => Json::Num(number(n)),
        Value::String(s) => Json::Str(s.clone()),
        Value::Array(a) => Json::Arr(a.iter().map(json).collect()),
        Value::Object(m) => Json::Obj(m.iter().map(|(k, v)| (k.clone(), json(v))).collect()),
    }
}

fn number(n: &serde_json::Number) -> Number {
    if let Some(u) = n.as_u64() {
        Number::Pos(u)
    } else if let Some(i) = n.as_i64() {
        Number::Neg(i)
    } else {
        Number::Float(n.as_f64().unwrap().to_bits(), n.to_string())
    }
}

fn doc(text: &str) -> Json {
    parse(text.as_bytes()).unwrap()
}

fn float(n: &Number) -> f64 {
    match n {
        Number::Pos(u) => *u as f64,
        Number::Neg(i) => *i as f64,
        Number::Float(b, _) => f64::from_bits(*b),
    }
}

/// The arithmetic that a template leaves open.
fn answer(ask: &Ask) -> Json {
    match ask {
        Ask::Sum(a, b) => json(&Value::from(float(a) + float(b))),
        Ask::Difference(a, b) => json(&Value::from(float(a) - float(b))),
        Ask::Order(a, b) => {
            let (x, y) = (float(a), float(b));
            json(&Value::from(if x < y {
                -1i64
            } else if x > y {
                1
            } else {
                0
            }))
        }
        Ask::Negation(a) => json(&Value::from(-float(a))),
        Ask::Whole(a) => json(&Value::from(float(a) as i64)),
        Ask::WholeText(t) => json(&Value::from(t.parse::<f64>().unwrap_or(0.0) as i64)),
        Ask::Literal(t) => json(&Value::from(t.parse::<f64>().unwrap_or(0.0))),
    }
}

fn try_render(t: &Template, m: &Vec<Json>, gen: bool, bos: &str, eos: &str) -> Result<String, String> {
    let mut facts: Vec<Fact> = Vec::new();
    loop {
        match t.render(m, gen, bos, eos, &facts) {
            Ok(s) => return Ok(s),
            Err(Halt::Error(e)) => return Err(e),
            Err(Halt::Need(ask)) => {
                let answer = answer(&ask);
                facts.push(Fact { ask, answer });
            }
        }
    }
}

/// A deterministic byte source, so a failure here is reproducible from its seed.
struct Rand(u64);

impl Rand {
    fn next(&mut self) -> u64 {
        // splitmix64.
        self.0 = self.0.wrapping_add(0x9e37_79b9_7f4a_7c15);
        let mut z = self.0;
        z = (z ^ (z >> 30)).wrapping_mul(0xbf58_476d_1ce4_e5b9);
        z = (z ^ (z >> 27)).wrapping_mul(0x94d0_49bb_1331_11eb);
        z ^ (z >> 31)
    }

    fn byte(&mut self) -> u8 {
        (self.next() >> 24) as u8
    }

    fn bytes(&mut self, n: usize) -> Vec<u8> {
        (0..n).map(|_| self.byte()).collect()
    }

    /// Corrupt one byte of `src`, which is how a header ends up almost-valid.
    fn mutate(&mut self, src: &[u8]) -> Vec<u8> {
        let mut out = src.to_vec();
        if !out.is_empty() {
            let at = (self.next() as usize) % out.len();
            out[at] = self.byte();
        }
        out
    }
}

fn leak(v: Vec<u8>) -> &'static [u8] {
    Box::leak(v.into_boxed_slice())
}

/// Open bytes the way a path to them would be opened.
fn open(bytes: &[u8]) -> Option<Store> {
    let buf = leak(bytes.to_vec());
    if moe::gguf::is_gguf(buf) {
        let g = Gguf::parse(buf).ok()?;
        return Store::open_gguf(buf, &g, Json::Obj(Vec::new())).ok();
    }
    Store::read_packed(buf).ok()
}

/// A store that opened must also survive being interrogated: the offsets
/// it accepted are used here for the first time.
fn interrogate(store: Store) {
    let _ = store.bytes();
    for n in &store.names() {
        let _ = store.get(n);
        let _ = store.shape(n);
        // Ask for slabs and rows the file never promised.
        let _ = store.view(n, 0, 0, 1);
        let _ = store.view(n, usize::MAX, 0, 1);
        let _ = store.view(n, 1, 0, usize::MAX);
    }
    let _ = Model::load(store);
}

fn probe(bytes: &[u8]) {
    if let Some(store) = open(bytes) {
        interrogate(store);
    }
}

#[test]
fn arbitrary_bytes_never_panic_a_loader() {
    let mut r = Rand(0xC0FFEE);
    // Pure noise, and noise behind each magic, so the header parsers are reached
    // rather than rejected at the first four bytes.
    for len in [0usize, 1, 4, 8, 16, 17, 64, 300] {
        for _ in 0..40 {
            probe(&r.bytes(len));
            let mut with_magic = b"MOEF".to_vec();
            with_magic.extend(r.bytes(len));
            probe(&with_magic);
            let mut gguf = b"GGUF".to_vec();
            gguf.extend(r.bytes(len));
            probe(&gguf);
        }
    }
}

/// A packed file of two tensors.
fn packed() -> Vec<u8> {
    let head = r#"{"config":{"num_attention_heads":2},"tensors":{"model.embed_tokens.weight":{"dt":"F32","len":64,"off":0,"shape":[4,4]},"x":{"dt":"F32","len":32,"off":64,"shape":[2,2,2]}}}"#;
    let mut out = preamble(head.len() as u64);
    out.extend(head.as_bytes());
    out.extend((0..96u8).collect::<Vec<u8>>());
    out
}

#[test]
fn a_corrupted_packed_model_is_refused_not_trusted() {
    let whole = packed();
    // It must load before it is broken, or this proves nothing.
    let store = open(&whole).unwrap();
    assert_eq!(store.container, Container::Packed);
    assert_eq!(store.names(), vec!["model.embed_tokens.weight", "x"]);
    assert_eq!(store.bytes(), 96);
    assert_eq!(store.shape("x"), Some((2, 2, 2)));

    let mut r = Rand(7);
    // Single-byte corruptions, concentrated in the header where the offsets are.
    for _ in 0..400 {
        probe(&r.mutate(&whole));
    }
    // And every truncation, which is what an interrupted download leaves.
    for cut in 0..whole.len().min(600) {
        probe(&whole[..cut]);
    }
    let cut = open(&whole[..whole.len() - 1]).unwrap();
    assert!(cut.names().iter().any(|n| cut.get(n).is_none()), "a tensor outside the file was read");
    // Header lengths are the field that used to panic; try the extremes directly.
    for hlen in [0u64, 1, 15, u64::MAX, u64::MAX - 16, 1 << 40, 1 << 62] {
        let mut bad = whole.clone();
        bad[8..16].copy_from_slice(&hlen.to_le_bytes());
        probe(&bad);
    }
}

/// A shard of two tensors.
fn shard() -> Vec<u8> {
    let head = r#"{"a":{"dtype":"F32","shape":[2,3],"data_offsets":[0,24]},"b":{"dtype":"F16","shape":[4],"data_offsets":[24,32]}}"#;
    let mut out = (head.len() as u64).to_le_bytes().to_vec();
    out.extend(head.as_bytes());
    out.extend((0..32u8).collect::<Vec<u8>>());
    out
}

fn open_shard(bytes: &[u8]) -> Option<Store> {
    let buf = leak(bytes.to_vec());
    Store::read_hf(&vec![buf], Some(b"{}".to_vec()), None).ok()
}

#[test]
fn a_corrupted_safetensors_shard_is_refused() {
    let whole = shard();
    let store = open_shard(&whole).unwrap();
    assert_eq!(store.container.name(), "safetensors");
    assert_eq!(store.get("a").unwrap().row(1), &(12..24u8).collect::<Vec<u8>>()[..]);
    assert_eq!(store.get("b").unwrap().rows, 1);
    assert!(!store.has("c"));
    let mut r = Rand(11);
    for _ in 0..200 {
        if let Some(s) = open_shard(&r.mutate(&whole)) {
            interrogate(s);
        }
    }
    // A header length past the end of the file.
    for hlen in [u64::MAX, 1 << 50, whole.len() as u64] {
        let mut bad = whole.clone();
        bad[..8].copy_from_slice(&hlen.to_le_bytes());
        assert!(open_shard(&bad).is_none());
    }
}

/// Every refusal says what is wrong.
#[test]
fn refusals_say_what_is_wrong() {
    let e: Refusal = packed_header(b"NOPE000000000000").unwrap_err();
    assert_eq!(e.message("m.moe"), "m.moe is not a .moe file");
    assert_eq!(shard_header(b"123").unwrap_err().message(""), "truncated safetensors file");
    assert_eq!(shard_header(&[9, 0, 0, 0, 0, 0, 0, 0, 1]).unwrap_err().message(""), "safetensors header longer than file");
    let mut v2 = packed();
    v2[4] = 2;
    assert_eq!(packed_header(&v2).unwrap_err().message(""), "packed format v2, this build speaks v1");
    assert_eq!(packed_header(&packed()[..40]).unwrap_err().message(""), "packed header longer than file");
}

/// A `tokenizer.json` arrives inside a downloaded checkpoint, so it is untrusted
/// too, and it must survive being *used*, not only parsed.
#[test]
fn arbitrary_tokenizers_never_panic() {
    let mut r = Rand(23);
    for _ in 0..200 {
        let noise = String::from_utf8_lossy(&r.bytes(48)).into_owned();
        let quoted = Value::from(noise.clone()).to_string();
        for j in [
            doc("{}"),
            doc(r#"{"model": {}}"#),
            doc(r#"{"model": {"vocab": {}}}"#),
            doc(&format!("{{\"model\": {{\"vocab\": {{{quoted}: 0}}, \"merges\": [{quoted}]}}}}")),
            // Ids far outside the vocabulary, and merges of nothing.
            doc(r#"{"model": {"vocab": {"a": 4000000000}, "merges": ["", " ", "a"]}}"#),
            doc(r#"{"model": {"vocab": {"a": 0}}, "added_tokens": [{"id": 99, "content": ""}]}"#),
            doc(r#"{"model": {"vocab": {"a": 0}}, "added_tokens": [{"id": 18446744073709551615}]}"#),
        ] {
            if let Ok(tok) = Tokenizer::from_json(&j) {
                let _ = tok.encode(&noise, Some(0));
                let _ = tok.encode("", None);
                let _ = tok.decode(&[0, 1, u32::MAX]);
                let _ = tok.decode_one(u32::MAX);
                let _ = tok.is_special(u32::MAX);
                let _ = tok.vocab_size();
            }
        }
    }
}

/// The grammar drives sampling, so it sees whatever bytes a model emits.
#[test]
fn arbitrary_bytes_never_panic_the_grammar() {
    let mut r = Rand(31);
    let schemas = [
        doc("{}"),
        doc(r#"{"type": "object", "properties": {"a": {"type": "integer"}}, "required": ["a"]}"#),
        doc(r#"{"type": "array", "items": {"enum": [1, 12, "x"]}, "minItems": 1}"#),
    ];
    for s in &schemas {
        let g = Grammar::from_schema(s).unwrap();
        for _ in 0..300 {
            let mut m = g.start();
            for b in r.bytes(64) {
                if !g.feed(&mut m, b) {
                    break;
                }
            }
            let _ = g.complete(&m);
        }
        // Deeply nested and pathological inputs, not only noise.
        for src in ["[".repeat(200), "{".repeat(200), "\\".repeat(100), "1e".repeat(80), "\"".repeat(99)] {
            let mut m = g.start();
            let _ = g.feed_all(&mut m, src.as_bytes());
            let _ = g.complete(&m);
        }
    }
}

/// A chat template is Jinja from a downloaded config, so a malformed one must be
/// a parse error and a hostile one must not run forever.
#[test]
fn arbitrary_templates_never_panic() {
    let mut r = Rand(41);
    let messages = vec![doc(r#"{"role": "user", "content": "hi"}"#)];
    for _ in 0..300 {
        let src = String::from_utf8_lossy(&r.bytes(40)).into_owned();
        if let Ok(t) = Template::parse(&src) {
            let _ = try_render(&t, &messages, true, "<s>", "</s>");
        }
    }
    for src in [
        "{{",
        "{%",
        "{#",
        "{{ }}",
        "{% %}",
        "{% if %}",
        "{% for %}",
        "{{ [ }}",
        "{{ 'a",
        "{% endif %}",
        "{% for x in x %}{% endfor %}",
        "{{ x.y.z.w }}",
        "{{ x[0][0][0] }}",
        "{{ ((((((1)))))) }}",
        // A backslash in front of a multi-byte character.
        "{{ '\\é' }}",
        "{{ '\\\u{49249}x' }}",
        "{{ é }}",
        "{% if é %}{% endif %}",
        "{{-\n'\n true>--\\\n{{{{ --\\{{{{{{\n\0\n \\if\\\\\\\\\\\u{49249}\n}\\\\{J*}}\r",
    ] {
        if let Ok(t) = Template::parse(src) {
            let _ = try_render(&t, &messages, true, "", "");
        }
    }
    // Nesting past the interpreter's depth limit must be refused, not overflow.
    let deep = "{% if true %}".repeat(200) + &"{% endif %}".repeat(200);
    if let Ok(t) = Template::parse(&deep) {
        assert!(try_render(&t, &messages, true, "", "").is_err(), "unbounded nesting was accepted");
    }
    // The same for an *expression*, which recurses in the parser rather than the
    // interpreter and so has its own limit. Each of these nests a different way.
    for deep in [
        format!("{{{{ {}1{} }}}}", "(".repeat(5000), ")".repeat(5000)),
        format!("{{{{ {}1 }}}}", "not ".repeat(5000)),
        format!("{{{{ {}1 }}}}", "-".repeat(5000)),
        format!("{{{{ {}1{} }}}}", "[".repeat(5000), "]".repeat(5000)),
        format!("{{{{ x{} }}}}", "[0".repeat(5000)),
        format!("{{% if {}1{} %}}{{% endif %}}", "(".repeat(5000), ")".repeat(5000)),
    ] {
        assert!(Template::parse(&deep).is_err(), "an expression nested 5000 deep was accepted");
    }
}
