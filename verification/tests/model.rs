//! Loading, describing, packing and pruning a checkpoint built in memory.

use moe::gate::{account, by_expert, group_bounds, kv_head, prune_groups, select, strongest_pair, window_start, Used};
use moe::float::order_key;
use moe::heads::Heads;
use moe::json::Json;
use moe::model::{at, Pool};
use moe::pack::{header, is_expert, Item, Order, PackFault};
use moe::parse::parse;
use moe::store::{pages, preamble, Container};
use moe::{Counts, Dt, Hot, Model, Prune, Routing, State, Store};
use serde_json::Value;

fn doc(text: &str) -> Json {
    parse(text.as_bytes()).unwrap()
}

fn leak(v: Vec<u8>) -> &'static [u8] {
    Box::leak(v.into_boxed_slice())
}

/// A shard of F32 tensors, filled with a ramp.
fn shard(tensors: &[(String, Vec<usize>)]) -> (&'static [u8], Json) {
    let (mut head, mut data) = (serde_json::Map::new(), Vec::new());
    for (k, (name, shape)) in tensors.iter().enumerate() {
        let n: usize = shape.iter().product();
        let from = data.len();
        for i in 0..n {
            data.extend((((i + k) % 17) as f32 / 8.0 - 1.0).to_le_bytes());
        }
        let mut e = serde_json::Map::new();
        e.insert("dtype".into(), Value::from("F32"));
        e.insert("shape".into(), Value::from(shape.clone()));
        e.insert("data_offsets".into(), Value::from(vec![from, data.len()]));
        head.insert(name.clone(), Value::Object(e));
    }
    let head = Value::Object(head);
    let text = head.to_string();
    let mut out = (text.len() as u64).to_le_bytes().to_vec();
    out.extend(text.as_bytes());
    out.extend(data);
    (leak(out), doc(&text))
}

fn named(list: &[(&str, &[usize])]) -> Vec<(String, Vec<usize>)> {
    list.iter().map(|(n, s)| (n.to_string(), s.to_vec())).collect()
}

/// Grouped-query attention, two routed layers of four experts.
fn gqa_tensors() -> Vec<(String, Vec<usize>)> {
    let mut t = named(&[
        ("model.embed_tokens.weight", &[48, 32]),
        ("model.norm.weight", &[32]),
        ("lm_head.weight", &[48, 32]),
    ]);
    for l in 0..2 {
        let p = format!("model.layers.{l}.");
        for (n, s) in [
            ("input_layernorm.weight", vec![32]),
            ("post_attention_layernorm.weight", vec![32]),
            ("self_attn.q_proj.weight", vec![32, 32]),
            ("self_attn.k_proj.weight", vec![16, 32]),
            ("self_attn.v_proj.weight", vec![16, 32]),
            ("self_attn.o_proj.weight", vec![32, 32]),
            ("self_attn.q_norm.weight", vec![8]),
            ("self_attn.k_norm.weight", vec![8]),
            ("mlp.gate.weight", vec![4, 32]),
        ] {
            t.push((format!("{p}{n}"), s));
        }
        for e in 0..4 {
            t.push((format!("{p}mlp.experts.{e}.gate_proj.weight"), vec![64, 32]));
            t.push((format!("{p}mlp.experts.{e}.up_proj.weight"), vec![64, 32]));
            t.push((format!("{p}mlp.experts.{e}.down_proj.weight"), vec![32, 64]));
        }
    }
    t
}

fn gqa_config() -> Json {
    doc(
        r#"{"architectures":["TestForCausalLM"],"num_attention_heads":4,"num_key_value_heads":2,"num_hidden_layers":2,
            "num_experts":4,"num_experts_per_tok":2,"eos_token_id":3,"bos_token_id":1,"max_position_embeddings":128}"#,
    )
}

fn gqa_store() -> Store {
    Store::open_hf(&vec![shard(&gqa_tensors())], gqa_config(), None).unwrap()
}

fn gqa() -> Model {
    Model::load(gqa_store()).unwrap()
}

/// Latent attention, a dense layer and a routed one with a shared expert.
fn mla() -> Model {
    let mut t = named(&[("model.embed_tokens.weight", &[48, 32]), ("model.norm.weight", &[32])]);
    for l in 0..2 {
        let p = format!("model.layers.{l}.");
        for (n, s) in [
            ("input_layernorm.weight", vec![32]),
            ("post_attention_layernorm.weight", vec![32]),
            ("self_attn.q_proj.weight", vec![64, 32]),
            ("self_attn.kv_a_proj_with_mqa.weight", vec![20, 32]),
            ("self_attn.kv_a_layernorm.weight", vec![12]),
            ("self_attn.kv_b_proj.weight", vec![64, 12]),
            ("self_attn.o_proj.weight", vec![32, 32]),
        ] {
            t.push((format!("{p}{n}"), s));
        }
        if l == 0 {
            for n in ["gate_proj", "up_proj"] {
                t.push((format!("{p}mlp.{n}.weight"), vec![64, 32]));
            }
            t.push((format!("{p}mlp.down_proj.weight"), vec![32, 64]));
        } else {
            t.push((format!("{p}mlp.gate.weight"), vec![4, 32]));
            t.push((format!("{p}mlp.gate.e_score_correction_bias"), vec![4]));
            for e in 0..4 {
                t.push((format!("{p}mlp.experts.{e}.gate_proj.weight"), vec![64, 32]));
                t.push((format!("{p}mlp.experts.{e}.up_proj.weight"), vec![64, 32]));
                t.push((format!("{p}mlp.experts.{e}.down_proj.weight"), vec![32, 64]));
            }
        }
    }
    let cfg = doc(
        r#"{"num_attention_heads":4,"num_hidden_layers":2,"n_routed_experts":4,"num_experts_per_tok":2,
            "qk_rope_head_dim":8,"qk_nope_head_dim":8,"v_head_dim":8,"kv_lora_rank":12,
            "scoring_func":"sigmoid","n_group":2,"topk_group":1}"#,
    );
    Model::load(Store::open_hf(&vec![shard(&t)], cfg, None).unwrap()).unwrap()
}

#[test]
fn architecture_is_detected_from_the_checkpoint() {
    let gqa = gqa();
    assert!(gqa.spec.mla.is_none());
    assert!(gqa.spec.qk_norm);
    assert_eq!((gqa.spec.heads, gqa.spec.kv_heads, gqa.spec.head_dim), (4, 2, 8));
    assert_eq!((gqa.spec.experts, gqa.spec.top_k), (4, 2));
    assert!(!gqa.spec.sigmoid);
    assert_eq!((gqa.spec.hidden, gqa.spec.vocab, gqa.spec.layers), (32, 48, 2));
    assert_eq!((gqa.spec.eos.clone(), gqa.spec.bos), (vec![3], Some(1)));

    let mla = mla();
    let d = mla.spec.mla.expect("latent attention not detected");
    assert_eq!((d.kv_lora, d.qk_nope, d.qk_rope, d.v_head), (12, 8, 8, 8));
    assert!(mla.spec.sigmoid, "sigmoid gating not detected");
    assert_eq!(mla.spec.n_group, 2);
    // Layer 0 is dense, so only the routed layer contributes expert bytes.
    assert!(mla.expert_bytes() > 0);
    assert_eq!(mla.expert_bytes() * 2, gqa.expert_bytes());
    assert_eq!(mla.kv_dims(), (64, 32));
    assert_eq!(gqa.kv_dims(), (16, 16));
}

/// What is missing is named.
#[test]
fn what_is_missing_is_named() {
    let without = |name: &str| {
        let t: Vec<_> = gqa_tensors().into_iter().filter(|(n, _)| n != name).collect();
        Model::load(Store::open_hf(&vec![shard(&t)], gqa_config(), None).unwrap()).err().unwrap().message()
    };
    assert_eq!(without("model.embed_tokens.weight"), "no embedding tensor (looked for model.embed_tokens.weight)");
    assert_eq!(without("model.norm.weight"), "missing tensor: final norm");
    assert_eq!(without("model.layers.1.self_attn.v_proj.weight"), "missing tensor: v_proj");
    let no_heads = Store::open_hf(&vec![shard(&gqa_tensors())], doc("{}"), None).unwrap();
    assert_eq!(Model::load(no_heads).err().unwrap().message(), "config lacks num_attention_heads");
    let t: Vec<_> = gqa_tensors().into_iter().filter(|(n, _)| !n.contains("layers.1.mlp")).collect();
    let e = Model::load(Store::open_hf(&vec![shard(&t)], gqa_config(), None).unwrap()).err().unwrap().message();
    assert!(e.starts_with("TestForCausalLM: layer 1 has no feed-forward"), "{e}");
}

/// Pinning must respect its budget and never exceed it.
#[test]
fn pinning_stays_inside_its_budget() {
    let m = gqa();
    let hot: Vec<(u32, u32)> =
        (0..m.spec.layers as u32).flat_map(|l| (0..m.spec.experts as u32).map(move |e| (l, e))).collect();
    let size = |v: Vec<&'static [u8]>| v.iter().map(|b| b.len() as u64).sum::<u64>();

    assert_eq!(size(m.pin_experts(&hot, 0)), 0, "a zero budget pinned something");

    let all = m.expert_bytes();
    let pinned = size(m.pin_experts(&hot, all));
    assert!(pinned <= all, "pinned {pinned} past a budget of {all}");
    assert!(pinned > 0, "a whole-model budget pinned nothing");
    assert_eq!(pinned, all);
    // One byte short of everything leaves out the last expert.
    assert_eq!(m.pin_experts(&hot, all - 1).len(), 3 * 7);

    // Unknown layers and experts are skipped rather than panicking.
    assert_eq!(size(m.pin_experts(&vec![(999, 0), (0, 999)], all)), 0);
}

/// Prefetching advises exactly the previous token's selection, three blocks per expert.
#[test]
fn prefetching_changes_nothing_but_residency() {
    let m = gqa();
    let mut st = State::new(&m, 32);
    assert_eq!(m.prefetch_next(&st).1, 0, "nothing came before the first token");
    st.record(1, Used { hits: vec![2, 0], routed: 2, reused: 0 }, 9, &vec![vec![(2, 7), (0, 8)]]);
    let (blocks, bytes) = m.prefetch_next(&st);
    assert_eq!(blocks.len(), 3 * 2, "an expert was advised in pieces");
    assert_eq!(bytes, m.hit_bytes(1, &st.previous(1)));
    assert_eq!(bytes * 4, m.expert_bytes());
    assert!(m.hit_bytes(0, &vec![99]) == 0 && m.prefetch);
    st.fetched(bytes);
    assert_eq!(st.stats.prefetched, bytes);
    assert_eq!((st.stats.routed, st.stats.reused, st.stats.expert_bytes), (2, 0, 9));
    assert_eq!(st.stats.reuse_rate(), (0, 2));
}

/// Rewinding the cache keeps the prefix, and forgets what came after it.
#[test]
fn truncating_the_cache_matches_a_fresh_state() {
    let m = gqa();
    let mut st = State::new(&m, 8);
    st.start_trace();
    assert!(st.begin(&vec![3, 11, 5]));
    st.record(0, Used { hits: vec![1], routed: 3, reused: 0 }, 0, &vec![vec![(1, 0)], vec![(1, 0)], vec![(1, 0)]]);
    st.end(3);
    assert_eq!(st.previous(0), vec![1]);
    assert!(st.begin(&vec![40, 7]));
    st.record(0, Used { hits: vec![2], routed: 2, reused: 0 }, 0, &vec![vec![(2, 0)], vec![(2, 0)]]);
    st.end(2);
    assert_eq!(st.pos, 5);
    assert!(!st.begin(&vec![1, 2, 3, 4]), "context window exhausted");
    assert!(!st.begin(&Vec::new()));
    st.truncate(3);
    assert_eq!(st.pos, 3);
    assert!(st.previous(0).is_empty() && st.previous(99).is_empty());
    let tr = st.trace.as_ref().unwrap();
    assert_eq!(tr.tokens, vec![3, 11, 5]);
    assert_eq!(tr.routes.iter().map(|r| r.pos).collect::<Vec<_>>(), vec![0, 1, 2]);
    // Truncating further than there is changes nothing.
    st.truncate(99);
    assert_eq!(st.pos, 3);
    assert_eq!(st.kv_bytes(), Some(2 * 8 * 32 * 4));
    st.reset();
    assert_eq!(st.pos, 0);
    assert!(st.trace.as_ref().unwrap().routes.is_empty());
}

/// One entry per token per routed layer, with the choices as they were made.
#[test]
fn tracing_records_every_routing_decision() {
    let m = gqa();
    let mut st = State::new(&m, 8);
    st.start_trace();
    assert!(st.begin(&vec![4, 5]));
    for l in 0..2 {
        st.record(l, Used { hits: vec![0, 1], routed: 4, reused: 0 }, 0, &vec![vec![(0, 9), (1, 8)], vec![(1, 9), (0, 8)]]);
    }
    st.end(2);
    let tr = st.trace.as_ref().unwrap();
    assert_eq!(tr.tokens, vec![4, 5]);
    let got: Vec<(u32, u32, Vec<(u32, u32)>)> = tr.routes.iter().map(|r| (r.pos, r.layer, r.experts.clone())).collect();
    assert_eq!(got.len(), 4);
    assert_eq!(got[1], (1, 0, vec![(1, 9), (0, 8)]));
    assert_eq!(got[2], (0, 1, vec![(0, 9), (1, 8)]));
}

fn keys(v: &[f32]) -> Vec<u32> {
    v.iter().map(|x| order_key(x.to_bits())).collect()
}

/// Every routing intervention must be observable, and no intervention must be
/// indistinguishable from none.
#[test]
fn router_interventions_do_what_they_say() {
    let k = keys(&[0.1, 0.4, 0.3, 0.2]);
    let none: Vec<usize> = Vec::new();
    assert_eq!(select(&k, &none, &none, 2), vec![1, 2]);
    // A disabled expert is passed over for whatever the router liked next.
    assert_eq!(select(&k, &vec![1], &none, 2), vec![2, 3]);
    // A forced one takes the weakest slot.
    assert_eq!(select(&k, &none, &vec![0], 2), vec![1, 0]);
    assert_eq!(select(&k, &none, &vec![9], 2), vec![1, 2]);
    assert_eq!(select(&k, &none, &none, 1).len(), 1);
    assert_eq!(select(&k, &none, &none, 4).len(), 4);
    let mut r = Routing::default();
    assert!(r.is_empty());
    assert_eq!(r.width(2), 2);
    assert_eq!(r.summary(""), "");
    r.top_k = 3;
    r.disabled = vec![(0, 1), (1, 2)];
    r.forced = vec![(1, 0)];
    r.tempered = true;
    assert!(!r.is_empty());
    assert_eq!(r.width(2), 3);
    assert_eq!(at(&r.disabled, 1), vec![2]);
    assert_eq!(r.summary("0.50"), "2 experts disabled, 1 forced, router temp 0.50, top-3");
}

#[test]
fn groups_are_pruned_by_their_strongest_pair() {
    let k = keys(&[0.1, 0.9, 0.5, 0.6]);
    assert_eq!(strongest_pair(&k, 0, 2), vec![1, 0]);
    assert_eq!(strongest_pair(&k, 2, 4), vec![3, 2]);
    let low = order_key(f32::NEG_INFINITY.to_bits());
    assert_eq!(prune_groups(&k, &keys(&[1.0, 1.1]), 1), vec![low, low, k[2], k[3]]);
    let by = by_expert(&vec![vec![1, 0], vec![1]], 3);
    assert_eq!(by, vec![vec![(0, 1)], vec![(0, 0), (1, 0)], vec![]]);
    let u = account(&by, &vec![1]);
    assert_eq!((u.hits, u.routed, u.reused), (vec![0, 1], 3, 2));
}

/// Groups are weighed only where some of them are left out, and the experts beyond the last
/// full group belong to none.
#[test]
fn groups_are_bounded_where_selection_is_confined() {
    assert_eq!(group_bounds(7, 3, 1), Some(vec![(0, 2), (2, 4), (4, 6)]));
    assert_eq!(group_bounds(8, 2, 1), Some(vec![(0, 4), (4, 8)]));
    assert_eq!(group_bounds(8, 2, 2), None);
    assert_eq!(group_bounds(8, 1, 0), None);
}

/// Every head of every position has cells of its own, and together they leave no gap.
#[test]
fn heads_keep_to_their_cells() {
    let at = |m: Model| m.heads().map(|h| (h.count, h.key, h.value));
    assert_eq!(at(gqa()), Some((2, 8, 8)));
    assert_eq!(at(mla()), Some((4, 16, 8)));
    let h = Heads { count: 3, key: 4, value: 2 };
    let mut next = 0;
    for p in 0..5 {
        for i in 0..3 {
            assert_eq!(h.key_cells(p, i), (next, next + 4));
            next += 4;
        }
    }
    assert_eq!(h.value_cells(2, 1), (14, 16));
    assert_eq!((h.norm_span(12, 12), h.norm_span(4, 12)), (12, 4));
}

#[test]
fn attention_reaches_as_far_as_its_window() {
    assert_eq!(window_start(9, None), 0);
    assert_eq!(window_start(9, Some(4)), 6);
    assert_eq!(window_start(2, Some(4)), 0);
    assert_eq!((0..4).map(|h| kv_head(h, 4, 2)).collect::<Vec<_>>(), vec![0, 0, 1, 1]);
    assert_eq!((0..3).map(|h| kv_head(h, 3, 2)).collect::<Vec<_>>(), vec![0, 1, 1]);
    assert_eq!(kv_head(1, 2, 4), 1);
}

#[test]
fn poolings_are_named() {
    assert_eq!(Pool::parse("mean"), Some(Pool::Mean));
    assert_eq!(Pool::parse("avg"), Some(Pool::Mean));
    assert_eq!(Pool::parse("last"), Some(Pool::Last));
    assert_eq!(Pool::parse("cls"), Some(Pool::First));
    assert_eq!(Pool::parse("max"), None);
    assert_eq!(Pool::default(), Pool::Mean);
    assert_eq!((0..3).map(|i| Pool::Last.counts(i, 3)).collect::<Vec<_>>(), vec![false, false, true]);
    assert!(Pool::First.counts(0, 3) && !Pool::First.counts(1, 3) && Pool::Mean.counts(1, 3));
}

/// The bytes of a packed file, with nothing in its payload.
fn packed(items: &Vec<Item>, config: Json) -> Store {
    let head = header(items, config, Json::Null, Json::Str("{{ x }}".into())).text();
    let mut out = preamble(head.len() as u64);
    out.extend(head.as_bytes());
    let end = items.last().map(|i| i.off + i.len).unwrap_or(0) as usize;
    out.resize(out.len() + end, 0);
    Store::read_packed(leak(out)).unwrap()
}

fn order<'a>(w: Dt, e: Dt, prune: Option<&'a Prune>, hot: Option<&'a Hot>) -> Order<'a> {
    Order { weight_dt: w, expert_dt: e, prune, hot }
}

/// Mixed precision must put the finer format on exactly the named experts and
/// leave everything else at the blanket rate.
#[test]
fn hot_experts_get_the_finer_format() {
    let src = gqa_store();
    let hot = Hot { experts: vec![(0, 1), (1, 2)], dt: Dt::Q8 };
    let bytes = |items: &Vec<Item>, dt: Dt| -> u64 {
        let m = Model::load(packed(items, gqa_config())).unwrap();
        m.dtypes().into_iter().find(|(d, _)| *d == dt).map(|(_, b)| b).unwrap_or(0)
    };
    let uniform = src.pack_with(&order(Dt::Q8, Dt::Q4, None, None)).unwrap();
    let mixed = src.pack_with(&order(Dt::Q8, Dt::Q4, None, Some(&hot))).unwrap();
    assert!(bytes(&mixed, Dt::Q4) < bytes(&uniform, Dt::Q4), "no expert left Q4");
    assert!(bytes(&mixed, Dt::Q8) > bytes(&uniform, Dt::Q8), "no expert reached Q8");
    assert!(bytes(&mixed, Dt::Q4) > 0, "every expert was promoted");
    // Naming no experts is the same file as no hot set at all.
    let none = Hot { experts: Vec::new(), dt: Dt::Q8 };
    let nohot = src.pack_with(&order(Dt::Q8, Dt::Q4, None, Some(&none))).unwrap();
    assert_eq!(bytes(&nohot, Dt::Q4), bytes(&uniform, Dt::Q4));
}

/// A packed file describes the same tensors, and norms and gates stay as they are.
#[test]
fn packing_keeps_every_tensor() {
    let src = gqa_store();
    let items = src.pack_with(&order(Dt::Q8, Dt::Q4, None, None)).unwrap();
    assert_eq!(items.len(), src.len());
    let s = packed(&items, gqa_config());
    assert_eq!(s.names(), src.names());
    assert_eq!(s.container, Container::Packed);
    assert_eq!(s.chat_template.as_deref(), Some("{{ x }}"));
    assert_eq!(s.get("model.layers.0.mlp.gate.weight").unwrap().dt, Dt::F32);
    assert_eq!(s.get("model.layers.0.self_attn.q_proj.weight").unwrap().dt, Dt::Q8);
    assert_eq!(s.get("model.layers.0.mlp.experts.2.up_proj.weight").unwrap().dt, Dt::Q4);
    assert!(is_expert("model.layers.0.mlp.experts.2.up_proj.weight"));
    // Nothing overlaps and nothing is left between.
    let mut end = 0;
    for i in &items {
        assert_eq!(i.off, end);
        end += i.len;
    }
    let m = Model::load(s).unwrap();
    let (dense, experts) = m.footprint();
    assert_eq!(dense + experts, m.store.bytes());
    let d = m.dtypes();
    assert!(d.windows(2).all(|w| w[0].1 >= w[1].1), "{d:?}");
}

/// Pruning keeps the named experts, renumbers them, and narrows the router to match.
#[test]
fn pruning_to_the_used_experts_changes_nothing_for_that_prompt() {
    let src = gqa_store();
    let plan = Prune { keep: vec![vec![1, 3], vec![0, 2]], top_k: 2 };
    assert_eq!(plan.width(), 2);
    let items = src.pack_with(&order(Dt::F32, Dt::F32, Some(&plan), None)).unwrap();
    let pruned = Model::load(packed(&items, plan.rewrite(&gqa_config()))).unwrap();
    assert_eq!(pruned.spec.experts, 2, "the pruned config still declares the old expert count");
    assert_eq!(pruned.spec.top_k, 2);
    assert_eq!(pruned.spec.layers, 2);
    assert_eq!(pruned.expert_bytes() * 2, gqa().expert_bytes());
    let from = |dest: &str| items.iter().find(|i| i.dest == dest).map(|i| (i.src.clone(), i.rows.clone()));
    assert_eq!(
        from("model.layers.0.mlp.experts.1.up_proj.weight"),
        Some(("model.layers.0.mlp.experts.3.up_proj.weight".to_string(), None))
    );
    assert_eq!(from("model.layers.0.mlp.experts.2.up_proj.weight"), None);
    assert_eq!(
        from("model.layers.1.mlp.gate.weight"),
        Some(("model.layers.1.mlp.gate.weight".to_string(), Some(vec![0, 2])))
    );
}

/// Pruning below what a prompt uses must still produce a model that loads.
#[test]
fn pruning_past_the_used_set_still_yields_a_valid_model() {
    let src = gqa_store();
    let tr = moe::model::Trace {
        tokens: vec![7],
        routes: (0..2).map(|l| moe::model::Route { pos: 0, layer: l, experts: vec![(l + 1, 0), (3, 0)] }).collect(),
    };
    let plan = Counts::from_trace(&tr, "m", 4, 2).prune_plan(2, 1, 1);
    assert_eq!(plan.width(), 1);
    let items = src.pack_with(&order(Dt::F32, Dt::F32, Some(&plan), None)).unwrap();
    let pruned = Model::load(packed(&items, plan.rewrite(&gqa_config()))).unwrap();
    assert_eq!(pruned.spec.experts, 1);
    assert_eq!(pruned.spec.top_k, 1, "top-k must be clamped to what survives");
    assert_eq!(pruned.spec.vocab, 48);
    // An expert that a tensor lacks cannot be kept.
    let bad = Prune { keep: vec![vec![9], vec![0]], top_k: 1 };
    let e = src.pack_with(&order(Dt::F32, Dt::F32, Some(&bad), None)).err().unwrap();
    assert!(matches!(&e, PackFault::Missing(name, 9) if name == "model.layers.0.mlp.gate.weight"));
}

/// Warming reads as much of the maps as the budget allows, and no more.
#[test]
fn warming_stays_inside_its_budget() {
    let parts = |n: u64| -> u64 { gqa_store().warm(n).iter().map(|b| b.len() as u64).sum() };
    assert_eq!(parts(0), 0);
    assert_eq!(parts(100), 100);
    let all = parts(u64::MAX);
    assert!(all > gqa_store().bytes());
    assert_eq!(parts(all), all);
}

#[test]
fn ranges_start_on_a_page() {
    assert_eq!(pages(5000, 10000, 4096), Some((4096, 10904)));
    assert_eq!(pages(8192, 10, 4096), Some((8192, 10)));
    assert_eq!(pages(77, 0, 4096), None);
}

#[test]
fn a_summary_describes_the_model() {
    let s = gqa().spec.summary("theta 10000");
    assert!(s.contains("TestForCausalLM") && s.contains("theta 10000"), "{s}");
}
