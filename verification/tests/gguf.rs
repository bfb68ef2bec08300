//! Reading GGUF headers, against bytes built in memory.

use moe::float::Real;
use moe::gguf::{rename, Field};
use moe::json::{Json, Number};
use moe::{Dt, Gguf, Tokenizer};
use serde_json::Value;

fn number_of(r: &Real) -> Value {
    match r {
        Real::Bits(b) => Value::from(f64::from_bits(*b)),
        Real::Pos(n) => Value::from(*n as f64),
        Real::Neg(n) => Value::from(*n as f64),
    }
}

/// The synthesised config as a JSON object.
fn config(g: &Gguf) -> Value {
    let mut m = serde_json::Map::new();
    for (k, f) in g.config() {
        let v = match &f {
            Field::Int(n) => Value::from(*n),
            Field::Real(r) => number_of(r),
            Field::Bool(b) => Value::from(*b),
            Field::Str(s) => Value::from(s.clone()),
            Field::List(s) => Value::from(vec![s.clone()]),
            Field::Scaling(kind, factor, original) => {
                let mut s = serde_json::Map::new();
                s.insert("rope_type".into(), Value::from(kind.clone()));
                s.insert("factor".into(), number_of(factor));
                if let Some(o) = original {
                    s.insert("original_max_position_embeddings".into(), Value::from(*o));
                }
                Value::Object(s)
            }
        };
        m.insert(k, v);
    }
    Value::Object(m)
}

fn value(j: &Json) -> Value {
    match j {
        Json::Null => Value::Null,
        Json::Bool(b) => Value::from(*b),
        Json::Num(Number::Pos(n)) => Value::from(*n),
        Json::Num(Number::Neg(n)) => Value::from(*n),
        Json::Num(Number::Float(b, _)) => Value::from(f64::from_bits(*b)),
        Json::Str(s) => Value::from(s.clone()),
        Json::Arr(a) => Value::Array(a.iter().map(value).collect()),
        Json::Obj(m) => Value::Object(m.iter().map(|(k, v)| (k.clone(), value(v))).collect()),
    }
}

/// Build a minimal GGUF in memory, so the reader is tested against bytes
/// rather than against a file someone has to download.
struct Builder {
    meta: Vec<u8>,
    count: u64,
    tensors: Vec<u8>,
    n_tensors: u64,
    data: Vec<u8>,
}

fn wstr(out: &mut Vec<u8>, s: &str) {
    out.extend((s.len() as u64).to_le_bytes());
    out.extend(s.as_bytes());
}

impl Builder {
    fn new() -> Builder {
        Builder { meta: Vec::new(), count: 0, tensors: Vec::new(), n_tensors: 0, data: Vec::new() }
    }

    fn u32_kv(&mut self, key: &str, v: u32) -> &mut Self {
        wstr(&mut self.meta, key);
        self.meta.extend(4u32.to_le_bytes());
        self.meta.extend(v.to_le_bytes());
        self.count += 1;
        self
    }

    fn f32_kv(&mut self, key: &str, v: f32) -> &mut Self {
        wstr(&mut self.meta, key);
        self.meta.extend(6u32.to_le_bytes());
        self.meta.extend(v.to_le_bytes());
        self.count += 1;
        self
    }

    fn str_kv(&mut self, key: &str, v: &str) -> &mut Self {
        wstr(&mut self.meta, key);
        self.meta.extend(8u32.to_le_bytes());
        wstr(&mut self.meta, v);
        self.count += 1;
        self
    }

    fn strs_kv(&mut self, key: &str, v: &[&str]) -> &mut Self {
        wstr(&mut self.meta, key);
        self.meta.extend(9u32.to_le_bytes());
        self.meta.extend(8u32.to_le_bytes());
        self.meta.extend((v.len() as u64).to_le_bytes());
        for s in v {
            wstr(&mut self.meta, s);
        }
        self.count += 1;
        self
    }

    fn ints_kv(&mut self, key: &str, v: &[i32]) -> &mut Self {
        wstr(&mut self.meta, key);
        self.meta.extend(9u32.to_le_bytes());
        self.meta.extend(5u32.to_le_bytes());
        self.meta.extend((v.len() as u64).to_le_bytes());
        for i in v {
            self.meta.extend(i.to_le_bytes());
        }
        self.count += 1;
        self
    }

    /// `shape` is outermost-first; it is written reversed, as GGUF does.
    fn tensor(&mut self, name: &str, shape: &[usize], ggml: u32, bytes: &[u8]) -> &mut Self {
        wstr(&mut self.tensors, name);
        self.tensors.extend((shape.len() as u32).to_le_bytes());
        for d in shape.iter().rev() {
            self.tensors.extend((*d as u64).to_le_bytes());
        }
        self.tensors.extend(ggml.to_le_bytes());
        self.tensors.extend((self.data.len() as u64).to_le_bytes());
        self.data.extend(bytes);
        // Keep every tensor 32-byte aligned, as writers do.
        while self.data.len() % 32 != 0 {
            self.data.push(0);
        }
        self.n_tensors += 1;
        self
    }

    fn build(&self) -> Vec<u8> {
        let mut out = Vec::new();
        out.extend(b"GGUF");
        out.extend(3u32.to_le_bytes());
        out.extend(self.n_tensors.to_le_bytes());
        out.extend(self.count.to_le_bytes());
        out.extend(&self.meta);
        out.extend(&self.tensors);
        while out.len() % 32 != 0 {
            out.push(0);
        }
        out.extend(&self.data);
        out
    }
}

fn f32s(v: &[f32]) -> Vec<u8> {
    v.iter().flat_map(|x| x.to_le_bytes()).collect()
}

#[test]
fn a_minimal_file_parses() {
    let mut b = Builder::new();
    b.str_kv("general.architecture", "llama")
        .u32_kv("llama.block_count", 2)
        .u32_kv("llama.attention.head_count", 4)
        .u32_kv("llama.attention.head_count_kv", 2)
        .f32_kv("llama.attention.layer_norm_rms_epsilon", 1e-5)
        .f32_kv("llama.rope.freq_base", 10000.0)
        .tensor("token_embd.weight", &[3, 4], 0, &f32s(&[1.0; 12]));
    let raw = b.build();
    let g = Gguf::parse(&raw).expect("parse");

    assert_eq!(g.arch(), "llama");
    assert_eq!(g.tensors.len(), 1);
    let t = &g.tensors[0];
    // Written reversed, read back outermost-first.
    assert_eq!(t.shape, vec![3, 4]);
    assert_eq!(t.dt, Dt::F32);
    assert_eq!(t.offset, 0);
    assert_eq!(g.data % 32, 0, "the data section must be aligned");

    let cfg = config(&g);
    assert_eq!(cfg["num_hidden_layers"], 2);
    assert_eq!(cfg["num_attention_heads"], 4);
    assert_eq!(cfg["num_key_value_heads"], 2);
    assert!((cfg["rope_theta"].as_f64().unwrap() - 10000.0).abs() < 1.0);
    assert!(cfg["num_experts"].is_null(), "a dense model must declare no experts");
}

#[test]
fn a_sparse_config_comes_through() {
    let mut b = Builder::new();
    b.str_kv("general.architecture", "qwen2moe")
        .u32_kv("qwen2moe.block_count", 1)
        .u32_kv("qwen2moe.attention.head_count", 2)
        .u32_kv("qwen2moe.expert_count", 8)
        .u32_kv("qwen2moe.expert_used_count", 2)
        .u32_kv("qwen2moe.attention.sliding_window", 128)
        .f32_kv("qwen2moe.rope.scaling.factor", 4.0)
        .str_kv("qwen2moe.rope.scaling.type", "yarn")
        .u32_kv("qwen2moe.rope.scaling.original_context_length", 4096);
    let g = Gguf::parse(&b.build()).unwrap();
    let cfg = config(&g);
    assert_eq!(cfg["num_experts"], 8);
    assert_eq!(cfg["num_experts_per_tok"], 2);
    assert_eq!(cfg["sliding_window"], 128);
    assert_eq!(cfg["rope_scaling"]["rope_type"], "yarn");
    assert_eq!(cfg["rope_scaling"]["factor"], 4.0);
    assert_eq!(cfg["rope_scaling"]["original_max_position_embeddings"], 4096);
    // And the spec must read it back.
    assert_eq!(cfg["architectures"][0], "qwen2moeForCausalLM");
}

/// Routing details that GGUF states differently, or does not state at all.
///
/// Getting these wrong does not fail: the experts are right and their mixture
/// is not, so the model emits fluent nonsense. That makes them exactly the
/// keys worth pinning down.
#[test]
fn routing_details_survive_the_translation() {
    // Stated explicitly, in the form deepseek-style checkpoints use.
    let mut b = Builder::new();
    b.str_kv("general.architecture", "deepseek2")
        .u32_kv("deepseek2.expert_count", 64)
        .u32_kv("deepseek2.expert_used_count", 6)
        .u32_kv("deepseek2.expert_gating_func", 2)
        .f32_kv("deepseek2.expert_weights_scale", 2.5)
        .u32_kv("deepseek2.expert_group_count", 8)
        .u32_kv("deepseek2.expert_group_used_count", 3);
    let cfg = config(&Gguf::parse(&b.build()).unwrap());
    assert_eq!(cfg["scoring_func"], "sigmoid");
    assert_eq!(cfg["routed_scaling_factor"], 2.5);
    assert_eq!(cfg["n_group"], 8);
    assert_eq!(cfg["topk_group"], 3);
    // Absent, so it takes the general default.
    assert_eq!(cfg["norm_topk_prob"], true);

    // OLMoE and Qwen1.5-MoE do not renormalise, and no GGUF of either says
    // so — llama.cpp folds it into the architecture. The default has to know
    // the same table, because the mistake is silent.
    for arch in ["olmoe", "qwen2moe", "grok"] {
        let mut o = Builder::new();
        o.str_kv("general.architecture", arch).u32_kv(&format!("{arch}.expert_count"), 64);
        assert_eq!(config(&Gguf::parse(&o.build()).unwrap())["norm_topk_prob"], false, "{arch}");
    }
    // Everything else does, Qwen3-MoE included — it changed between versions.
    for arch in ["llama", "qwen3moe", "deepseek2"] {
        let mut o = Builder::new();
        o.str_kv("general.architecture", arch).u32_kv(&format!("{arch}.expert_count"), 64);
        assert_eq!(config(&Gguf::parse(&o.build()).unwrap())["norm_topk_prob"], true, "{arch}");
    }

    // An explicit key always wins over the architecture default.
    let mut e = Builder::new();
    e.str_kv("general.architecture", "olmoe")
        .u32_kv("olmoe.expert_count", 64)
        .u32_kv("olmoe.expert_weights_norm", 1);
    assert_eq!(config(&Gguf::parse(&e.build()).unwrap())["norm_topk_prob"], true);

    // A gating function of 1 is softmax, the common case.
    let mut g = Builder::new();
    g.str_kv("general.architecture", "qwen2moe").u32_kv("qwen2moe.expert_gating_func", 1);
    assert_eq!(config(&Gguf::parse(&g.build()).unwrap())["scoring_func"], "softmax");
}

#[test]
fn a_vocabulary_becomes_a_tokenizer() {
    let mut b = Builder::new();
    b.str_kv("general.architecture", "llama")
        .str_kv("tokenizer.ggml.model", "gpt2")
        .strs_kv("tokenizer.ggml.tokens", &["a", "b", "ab", "<|end|>"])
        .strs_kv("tokenizer.ggml.merges", &["a b"])
        .ints_kv("tokenizer.ggml.token_type", &[1, 1, 1, 3])
        .u32_kv("tokenizer.ggml.eos_token_id", 3);
    let g = Gguf::parse(&b.build()).unwrap();
    let given = g.tokenizer().expect("a tokenizer");
    let j = value(&given);
    assert_eq!(j["model"]["vocab"]["ab"], 2);
    assert_eq!(j["model"]["merges"][0], "a b");
    // The one control token is marked as added and special.
    assert_eq!(j["added_tokens"][0]["id"], 3);
    assert_eq!(j["added_tokens"][0]["special"], true);
    assert_eq!(j["pre_tokenizer"]["type"], "ByteLevel");
    // ...and it must actually load.
    let tok = Tokenizer::from_json(&given).expect("load");
    assert!(tok.is_special(3));
    assert!(!tok.is_special(0));
    assert_eq!(config(&g)["eos_token_id"], 3);

    // A SentencePiece vocabulary with no merges cannot be expressed, and
    // saying so beats mis-tokenising.
    let mut spm = Builder::new();
    spm.str_kv("general.architecture", "llama")
        .str_kv("tokenizer.ggml.model", "llama")
        .strs_kv("tokenizer.ggml.tokens", &["x"]);
    assert!(Gguf::parse(&spm.build()).unwrap().tokenizer().is_none());
}

#[test]
fn names_map_onto_the_engines_own() {
    for (from, to) in [
        ("token_embd.weight", "model.embed_tokens.weight"),
        ("output.weight", "lm_head.weight"),
        ("output_norm.weight", "model.norm.weight"),
        ("blk.0.attn_norm.weight", "model.layers.0.input_layernorm.weight"),
        ("blk.7.attn_q.weight", "model.layers.7.self_attn.q_proj.weight"),
        ("blk.7.attn_q_norm.weight", "model.layers.7.self_attn.q_norm.weight"),
        ("blk.7.attn_output.weight", "model.layers.7.self_attn.o_proj.weight"),
        ("blk.1.ffn_norm.weight", "model.layers.1.post_attention_layernorm.weight"),
        ("blk.1.ffn_gate_inp.weight", "model.layers.1.mlp.gate.weight"),
        ("blk.1.ffn_gate_exps.weight", "model.layers.1.mlp.experts.gate_proj"),
        ("blk.1.ffn_down_exps.weight", "model.layers.1.mlp.experts.down_proj"),
        ("blk.1.ffn_down.weight", "model.layers.1.mlp.down_proj.weight"),
        ("blk.1.ffn_gate_shexp.weight", "model.layers.1.mlp.shared_expert.gate_proj.weight"),
        // The shared expert's gate. Its name starts with the router's, so a
        // prefix match here would silently make one of them the other.
        ("blk.1.ffn_gate_inp_shexp.weight", "model.layers.1.mlp.shared_expert_gate.weight"),
    ] {
        assert_eq!(rename(from).as_deref(), Some(to), "{from}");
    }
    // Tensors the engine computes rather than reads have no counterpart.
    assert_eq!(rename("rope_freqs.weight"), None);
    assert_eq!(rename("blk.0.something_else.weight"), None);
    assert_eq!(rename("blk.x.attn_q.weight"), None);
}

/// A corrupt or hostile header must be refused, never trusted into an
/// out-of-bounds read. This is the only code that parses a downloaded file.
#[test]
fn malformed_headers_are_refused() {
    let good = {
        let mut b = Builder::new();
        b.str_kv("general.architecture", "llama").tensor("token_embd.weight", &[2, 2], 0, &f32s(&[0.0; 4]));
        b.build()
    };
    assert!(Gguf::parse(&good).is_ok());

    assert!(Gguf::parse(b"").is_err());
    assert!(Gguf::parse(b"NOPE").is_err());
    // Every truncation must be an error, not a panic.
    for cut in 0..good.len() {
        let _ = Gguf::parse(&good[..cut]);
    }
    // A wrong version is refused by name.
    let mut bad_version = good.clone();
    bad_version[4..8].copy_from_slice(&99u32.to_le_bytes());
    assert!(Gguf::parse(&bad_version).unwrap_err().message().contains("v99"));
    // An absurd tensor count cannot be trusted.
    let mut huge = good.clone();
    huge[8..16].copy_from_slice(&u64::MAX.to_le_bytes());
    assert!(Gguf::parse(&huge).is_err());
    // Nor an absurd metadata count.
    let mut huge_meta = good.clone();
    huge_meta[16..24].copy_from_slice(&u64::MAX.to_le_bytes());
    assert!(Gguf::parse(&huge_meta).is_err());
}

#[test]
fn unsupported_quantisations_are_named() {
    let mut b = Builder::new();
    // 13 is Q5_K, which the engine does not read.
    b.str_kv("general.architecture", "llama").tensor("token_embd.weight", &[2, 256], 13, &[0u8; 512]);
    let e = Gguf::parse(&b.build()).unwrap_err().message();
    assert!(e.contains("Q5_K"), "{e}");
    assert!(e.contains("Q4_K"), "the error should say what is readable: {e}");
}

#[test]
fn only_the_magic_makes_a_gguf() {
    assert!(moe::gguf::is_gguf(b"GGUF...."));
    assert!(!moe::gguf::is_gguf(b"GGU"));
    assert!(!moe::gguf::is_gguf(b"MOEF...."));
}

/// Every proper prefix of a header is refused, and bytes behind it change nothing.
#[test]
fn truncation_is_always_refused() {
    let mut b = Builder::new();
    b.str_kv("general.architecture", "llama").str_kv("tokenizer.chat_template", "{{ x }}");
    let whole = b.build();
    for cut in 0..whole.len() - 32 {
        assert!(Gguf::parse(&whole[..cut]).is_err(), "a prefix of {cut} bytes was accepted");
    }
    let g = Gguf::parse(&whole).unwrap();
    assert_eq!(g.chat_template().as_deref(), Some("{{ x }}"));
    let mut longer = whole.clone();
    longer.extend([1, 2, 3]);
    assert_eq!(Gguf::parse(&longer).unwrap().data, g.data);
}
