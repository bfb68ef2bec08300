//! What a derived model takes from where: each setting of the config that is read, under which
//! key, and what holds where the config is silent; and what the tensors themselves decide.

use vstd::prelude::*;
use crate::float::Real;
use crate::index::Rec;
use crate::json::{JsonV, NumberV};
use crate::spec::{
    derived, in_layer, kind_of, local_layer, prefix_from, prefix_in, rope_in, scheme_of, singles_from, stack_from, tokens_among,
    window_size, windows_in, Lack, RopeKind, SpecV,
};
use crate::store::{Store, StoreV};
use crate::text::{decimal_of, first_at, is_at};

verus! {

/// Whether a config has a number under a key.
pub open spec fn numeric(cfg: JsonV, key: Seq<char>) -> bool {
    cfg.get(key) matches Some(JsonV::Num(_))
}

/// Whether a config has the whole number `n` under a key.
pub open spec fn whole(cfg: JsonV, key: Seq<char>, n: u64) -> bool {
    cfg.get(key) == Some(JsonV::Num(NumberV::Pos(n)))
}

/// Whether a config has a double with these bits under a key.
pub open spec fn double(cfg: JsonV, key: Seq<char>, bits: u64) -> bool {
    cfg.get(key) matches Some(JsonV::Num(NumberV::Float(b, _))) && b == bits
}

/// Whether a config has a flag under a key.
pub open spec fn flagged(cfg: JsonV, key: Seq<char>) -> bool {
    cfg.get(key) matches Some(JsonV::Bool(_))
}

/// Whether routing weights are renormalised is what the config says, under one key or the
/// other, and they are where it says nothing.
pub proof fn law_renormalising_is_read(s: Store, b: bool)
    requires
        derived(s) is Ok,
    ensures
        s.model().config.get("norm_topk_prob"@) == Some(JsonV::Bool(b)) ==> derived(s)->Ok_0.norm_topk == b,
        !flagged(s.model().config, "norm_topk_prob"@) && s.model().config.get("norm_expert_prob"@) == Some(JsonV::Bool(b))
            ==> derived(s)->Ok_0.norm_topk == b,
        !flagged(s.model().config, "norm_topk_prob"@) && !flagged(s.model().config, "norm_expert_prob"@)
            ==> derived(s)->Ok_0.norm_topk,
{
}

/// Output weights are the embedding's own where the config says so or no others are stored.
pub proof fn law_tying_is_read(s: Store)
    requires
        derived(s) is Ok,
    ensures
        s.model().config.get("tie_word_embeddings"@) == Some(JsonV::Bool(true)) ==> derived(s)->Ok_0.tie,
        !s.model().index.dom().contains("lm_head.weight"@) ==> derived(s)->Ok_0.tie,
        s.model().config.get("tie_word_embeddings"@) != Some(JsonV::Bool(true)) && s.model().index.dom().contains(
            "lm_head.weight"@,
        ) ==> !derived(s)->Ok_0.tie,
{
}

/// How many layers and attention heads there are is what the config says, under the first of
/// its keys that holds a number.
pub proof fn law_layers_and_heads_are_read(s: Store, n: u64)
    requires
        derived(s) is Ok,
        n < 0x20_0000_0000_0000,
        n <= usize::MAX,
    ensures
        whole(s.model().config, "num_hidden_layers"@, n)
            ==> derived(s)->Ok_0.layers == n,
        !numeric(s.model().config, "num_hidden_layers"@) && whole(s.model().config, "n_layers"@, n)
            ==> derived(s)->Ok_0.layers == n,
        !numeric(s.model().config, "num_hidden_layers"@) && !numeric(s.model().config, "n_layers"@) && whole(s.model().config, "n_layer"@, n)
            ==> derived(s)->Ok_0.layers == n,
        whole(s.model().config, "num_attention_heads"@, n)
            ==> derived(s)->Ok_0.heads == n,
        !numeric(s.model().config, "num_attention_heads"@) && whole(s.model().config, "n_heads"@, n)
            ==> derived(s)->Ok_0.heads == n,
        !numeric(s.model().config, "num_attention_heads"@) && !numeric(s.model().config, "n_heads"@) && whole(s.model().config, "n_head"@, n)
            ==> derived(s)->Ok_0.heads == n,
{
    assert(Real::Pos(n).word() == n);
}

/// The longest context is what the config says, and 8192 where it says nothing.
pub proof fn law_context_is_read(s: Store, n: u64)
    requires
        derived(s) is Ok,
        n < 0x20_0000_0000_0000,
        n <= usize::MAX,
    ensures
        whole(s.model().config, "max_position_embeddings"@, n)
            ==> derived(s)->Ok_0.max_ctx == n,
        !numeric(s.model().config, "max_position_embeddings"@)
            ==> derived(s)->Ok_0.max_ctx == 8192,
{
    assert(Real::Pos(n).word() == n);
}

/// How many experts a token is given is what the config says, under the first of its keys that
/// holds a number, and two where none does; groups are as the config says, and one where it
/// does not.
pub proof fn law_choice_is_read(s: Store, n: u64)
    requires
        derived(s) is Ok,
        n < 0x20_0000_0000_0000,
        n <= usize::MAX,
    ensures
        whole(s.model().config, "num_experts_per_tok"@, n)
            ==> derived(s)->Ok_0.top_k == n,
        !numeric(s.model().config, "num_experts_per_tok"@) && whole(s.model().config, "moe_top_k"@, n)
            ==> derived(s)->Ok_0.top_k == n,
        !numeric(s.model().config, "num_experts_per_tok"@) && !numeric(s.model().config, "moe_top_k"@) && whole(s.model().config, "top_k"@, n)
            ==> derived(s)->Ok_0.top_k == n,
        !numeric(s.model().config, "num_experts_per_tok"@) && !numeric(s.model().config, "moe_top_k"@) && !numeric(s.model().config, "top_k"@)
            ==> derived(s)->Ok_0.top_k == 2,
        whole(s.model().config, "n_group"@, n)
            ==> derived(s)->Ok_0.n_group == n,
        !numeric(s.model().config, "n_group"@)
            ==> derived(s)->Ok_0.n_group == 1,
        whole(s.model().config, "topk_group"@, n)
            ==> derived(s)->Ok_0.topk_group == n,
        !numeric(s.model().config, "topk_group"@)
            ==> derived(s)->Ok_0.topk_group == 1,
{
    assert(Real::Pos(n).word() == n);
}

/// The scales that the config gives are kept as it gives them, bit for bit; where it gives
/// none, a millionth keeps the norm from dividing by zero and the experts' part is not scaled.
pub proof fn law_scales_are_read(s: Store, bits: u64)
    requires
        derived(s) is Ok,
    ensures
        double(s.model().config, "rms_norm_eps"@, bits) ==> derived(s)->Ok_0.eps == Real::Bits(bits),
        !numeric(s.model().config, "rms_norm_eps"@) && double(s.model().config, "layer_norm_eps"@, bits) ==> derived(
            s,
        )->Ok_0.eps == Real::Bits(bits),
        !numeric(s.model().config, "rms_norm_eps"@) && !numeric(s.model().config, "layer_norm_eps"@) ==> derived(s)->Ok_0.eps
            == Real::Bits(0x3eb0_c6f7_a0b5_ed8d),
        double(s.model().config, "routed_scaling_factor"@, bits) ==> derived(s)->Ok_0.routed_scale == Real::Bits(bits),
        !numeric(s.model().config, "routed_scaling_factor"@) ==> derived(s)->Ok_0.routed_scale == Real::Bits(
            0x3ff0_0000_0000_0000,
        ),
{
}

/// Scores are sigmoids where the config says `sigmoid` or layer zero has a correction bias,
/// and only there.
pub proof fn law_scoring_is_read(s: Store)
    requires
        derived(s) is Ok,
    ensures
        s.model().config.get("scoring_func"@) == Some(JsonV::Str("sigmoid"@)) ==> derived(s)->Ok_0.sigmoid,
        s.model().index.dom().contains(
            derived(s)->Ok_0.prefix + decimal_of(0) + "."@ + "mlp.gate.e_score_correction_bias"@,
        ) ==> derived(s)->Ok_0.sigmoid,
        s.model().config.get("scoring_func"@) != Some(JsonV::Str("sigmoid"@)) && !s.model().index.dom().contains(
            derived(s)->Ok_0.prefix + decimal_of(0) + "."@ + "mlp.gate.e_score_correction_bias"@,
        ) ==> !derived(s)->Ok_0.sigmoid,
{
}

/// The tokens that end and begin a text are those of the config: one number, or a list, of
/// which the first begins a text.
pub proof fn law_end_tokens_are_read(s: Store, n: u32, m: u32)
    requires
        derived(s) is Ok,
    ensures
        whole(s.model().config, "eos_token_id"@, n as u64) ==> derived(s)->Ok_0.eos == seq![n],
        whole(s.model().config, "bos_token_id"@, n as u64) ==> derived(s)->Ok_0.bos == Some(n),
        s.model().config.get("eos_token_id"@) == Some(
            JsonV::Arr(seq![JsonV::Num(NumberV::Pos(n as u64)), JsonV::Num(NumberV::Pos(m as u64))]),
        ) ==> derived(s)->Ok_0.eos == seq![n, m],
        s.model().config.get("bos_token_id"@) == Some(
            JsonV::Arr(seq![JsonV::Num(NumberV::Pos(n as u64)), JsonV::Num(NumberV::Pos(m as u64))]),
        ) ==> derived(s)->Ok_0.bos == Some(n),
        s.model().config.get("eos_token_id"@) is None ==> derived(s)->Ok_0.eos == Seq::<u32>::empty(),
        s.model().config.get("bos_token_id"@) is None ==> derived(s)->Ok_0.bos is None,
{
    let two = seq![JsonV::Num(NumberV::Pos(n as u64)), JsonV::Num(NumberV::Pos(m as u64))];
    reveal_with_fuel(tokens_among, 3);
    assert(tokens_among(two, 2) =~= seq![n, m]);
}

/// A list of token numbers is taken whole and in order.
pub proof fn law_token_lists_are_read(v: Seq<JsonV>, ids: Seq<u32>)
    requires
        v.len() == ids.len(),
        forall|i: int| 0 <= i < v.len() ==> #[trigger] v[i] == JsonV::Num(NumberV::Pos(ids[i] as u64)),
    ensures
        tokens_among(v, v.len()) == ids,
{
    lemma_token_lists(v, ids, v.len());
    assert(ids.subrange(0, v.len() as int) =~= ids);
}

proof fn lemma_token_lists(v: Seq<JsonV>, ids: Seq<u32>, n: nat)
    requires
        n <= v.len() == ids.len(),
        forall|i: int| 0 <= i < v.len() ==> #[trigger] v[i] == JsonV::Num(NumberV::Pos(ids[i] as u64)),
    ensures
        tokens_among(v, n) == ids.subrange(0, n as int),
    decreases n,
{
    if n > 0 {
        lemma_token_lists(v, ids, (n - 1) as nat);
        assert(v[n - 1] == JsonV::Num(NumberV::Pos(ids[n - 1] as u64)));
    }
    assert(tokens_among(v, n) =~= ids.subrange(0, n as int));
}

/// The architecture is the first that the config lists, or else its model type.
pub proof fn law_architecture_is_read(s: Store, rest: Seq<JsonV>, name: Seq<char>)
    requires
        derived(s) is Ok,
    ensures
        s.model().config.get("architectures"@) == Some(JsonV::Arr(seq![JsonV::Str(name)] + rest)) ==> derived(s)->Ok_0.arch
            == name,
        s.model().config.get("architectures"@) is None && s.model().config.get("model_type"@) == Some(JsonV::Str(name))
            ==> derived(s)->Ok_0.arch == name,
        s.model().config.get("architectures"@) is None && s.model().config.get("model_type"@) is None ==> derived(
            s,
        )->Ok_0.arch == "unknown"@,
{
    let list = seq![JsonV::Str(name)] + rest;
    assert(list[0] == JsonV::Str(name));
}

/// The vocabulary is as large as the embedding has rows, and the hidden state as wide as it has
/// columns; queries and keys are normed where layer zero has the weights for it.
pub proof fn law_shapes_decide(s: Store)
    requires
        derived(s) is Ok,
        s.readable("model.embed_tokens.weight"@),
    ensures
        derived(s)->Ok_0.vocab == s.model().index["model.embed_tokens.weight"@].slabs
            * s.model().index["model.embed_tokens.weight"@].rows,
        derived(s)->Ok_0.hidden == s.model().index["model.embed_tokens.weight"@].cols,
        derived(s)->Ok_0.qk_norm <==> s.model().index.dom().contains(
            derived(s)->Ok_0.prefix + decimal_of(0) + "."@ + "self_attn.q_norm.weight"@,
        ),
{
}

/// Heads of plain attention: their width is what the config says, or else what the query's
/// rows leave to each; there are as many key-value heads as the key's rows hold, and at least
/// one. Without a key of its own, each head has one.
pub proof fn law_heads_are_measured(s: Store, q: Seq<char>, k: Seq<char>, n: u64)
    requires
        derived(s) is Ok,
        n < 0x20_0000_0000_0000,
        0 < n <= usize::MAX,
        q == derived(s)->Ok_0.prefix + decimal_of(0) + "."@ + "self_attn.q_proj.weight"@,
        k == derived(s)->Ok_0.prefix + decimal_of(0) + "."@ + "self_attn.k_proj.weight"@,
        !s.readable(derived(s)->Ok_0.prefix + decimal_of(0) + "."@ + "self_attn.kv_a_proj_with_mqa.weight"@),
    ensures
        derived(s)->Ok_0.mla is None,
        s.readable(q),
        whole(s.model().config, "head_dim"@, n) ==> derived(s)->Ok_0.head_dim == n,
        !numeric(s.model().config, "head_dim"@) ==> derived(s)->Ok_0.head_dim == s.model().height(q) / (derived(
            s,
        )->Ok_0.heads as int),
        !s.readable(k) ==> derived(s)->Ok_0.kv_heads == derived(s)->Ok_0.heads,
        s.readable(k) && s.model().height(k) < derived(s)->Ok_0.head_dim ==> derived(s)->Ok_0.kv_heads == 1,
        s.readable(k) && s.model().height(k) >= derived(s)->Ok_0.head_dim ==> {
            let kv = derived(s)->Ok_0.kv_heads as int;
            let hd = derived(s)->Ok_0.head_dim as int;
            kv * hd <= s.model().height(k) < (kv + 1) * hd
        },
{
    let hd = derived(s)->Ok_0.head_dim as int;
    if s.readable(k) {
        let rows = s.model().height(k);
        assert(rows >= 0) by {
            assert(s.model().index[k].slabs * s.model().index[k].rows >= 0) by (nonlinear_arith);
        }
        assert(hd > 0);
        let kv = rows / hd;
        assert(kv * hd <= rows < (kv + 1) * hd && kv >= 0) by (nonlinear_arith)
            requires
                hd > 0,
                rows >= 0,
                kv == rows / hd,
        ;
        if rows >= hd {
            assert(kv >= 1) by (nonlinear_arith)
                requires
                    rows >= hd,
                    rows < (kv + 1) * hd,
                    hd > 0,
            ;
        } else {
            assert(kv < 1) by (nonlinear_arith)
                requires
                    kv * hd <= rows,
                    rows < hd,
                    hd > 0,
            ;
        }
        assert(kv <= rows) by (nonlinear_arith)
            requires
                kv * hd <= rows,
                kv >= 0,
                hd >= 1,
        ;
    }
    assert(s.model().height(q) >= 0) by {
        assert(s.model().index[q].slabs * s.model().index[q].rows >= 0) by (nonlinear_arith);
    }
    let heads = derived(s)->Ok_0.heads as int;
    assert(heads > 0);
    assert(0 <= s.model().height(q) / heads <= s.model().height(q)) by (nonlinear_arith)
        requires
            s.model().height(q) >= 0,
            heads > 0,
    ;
}

/// Latent attention is what a checkpoint has whose layer zero has the latent projection; its
/// dimensions are those of the config, with what is usual where it is silent. The rank that is
/// not stated is what the projection's rows leave beside the rotary part.
pub proof fn law_latent_attention_is_read(s: Store, a: Seq<char>, n: u64)
    requires
        derived(s) is Ok,
        n < 0x20_0000_0000_0000,
        n <= usize::MAX,
        a == derived(s)->Ok_0.prefix + decimal_of(0) + "."@ + "self_attn.kv_a_proj_with_mqa.weight"@,
        s.readable(a),
    ensures
        derived(s)->Ok_0.mla is Some,
        derived(s)->Ok_0.head_dim == derived(s)->Ok_0.mla->0.qk_rope,
        derived(s)->Ok_0.kv_heads == derived(s)->Ok_0.heads,
        whole(s.model().config, "kv_lora_rank"@, n) ==> derived(s)->Ok_0.mla->0.kv_lora == n,
        !numeric(s.model().config, "kv_lora_rank"@) ==> derived(s)->Ok_0.mla->0.kv_lora + derived(s)->Ok_0.mla->0.qk_rope
            == s.model().height(a),
        whole(s.model().config, "qk_rope_head_dim"@, n) ==> derived(s)->Ok_0.mla->0.qk_rope == n,
        !numeric(s.model().config, "qk_rope_head_dim"@) ==> derived(s)->Ok_0.mla->0.qk_rope == 64,
        whole(s.model().config, "q_lora_rank"@, n) ==> derived(s)->Ok_0.mla->0.q_lora == n,
        !numeric(s.model().config, "q_lora_rank"@) ==> derived(s)->Ok_0.mla->0.q_lora == 0,
        whole(s.model().config, "qk_nope_head_dim"@, n) ==> derived(s)->Ok_0.mla->0.qk_nope == n,
        !numeric(s.model().config, "qk_nope_head_dim"@) ==> derived(s)->Ok_0.mla->0.qk_nope == 128,
        whole(s.model().config, "v_head_dim"@, n) ==> derived(s)->Ok_0.mla->0.v_head == n,
        !numeric(s.model().config, "v_head_dim"@) ==> derived(s)->Ok_0.mla->0.v_head == 128,
{
    assert(s.model().index[a].slabs * s.model().index[a].rows >= 0) by (nonlinear_arith);
}

/// Nothing is derived of a checkpoint without an embedding, or whose config does not say how
/// many attention heads there are.
pub proof fn law_what_is_lacking(s: Store)
    ensures
        !s.readable("model.embed_tokens.weight"@) && !s.readable("embed_tokens.weight"@) && !s.readable(
            "transformer.wte.weight"@,
        ) <==> derived(s) == Err::<SpecV, Lack>(Lack::Embedding),
        derived(s) == Err::<SpecV, Lack>(Lack::Heads) ==> !numeric(s.model().config, "num_attention_heads"@) && !numeric(
            s.model().config,
            "n_heads"@,
        ) && !numeric(s.model().config, "n_head"@),
        !numeric(s.model().config, "num_attention_heads"@) && !numeric(s.model().config, "n_heads"@) && !numeric(
            s.model().config,
            "n_head"@,
        ) ==> derived(s) is Err,
{
}

/// What stretches the rotary embedding: nothing, where the factor does not; else what the
/// scheme is called, and interpolation where it is called anything else.
pub proof fn law_schemes_are_named(factor: Real, named: Seq<char>)
    ensures
        !factor.stretches() ==> kind_of(named, factor) == RopeKind::Plain,
        factor.stretches() ==> kind_of("dynamic"@, factor) == RopeKind::Dynamic,
        factor.stretches() ==> kind_of("ntk"@, factor) == RopeKind::Dynamic,
        factor.stretches() ==> kind_of("yarn"@, factor) == RopeKind::Yarn,
        factor.stretches() ==> kind_of("llama3"@, factor) == RopeKind::Llama3,
        factor.stretches() ==> kind_of("linear"@, factor) == RopeKind::Linear,
        factor.stretches() && named != "dynamic"@ && named != "ntk"@ && named != "yarn"@ && named != "llama3"@ ==> kind_of(
            named,
            factor,
        ) == RopeKind::Linear,
{
    reveal_strlit("dynamic");
    reveal_strlit("ntk");
    reveal_strlit("yarn");
    reveal_strlit("llama3");
    reveal_strlit("linear");
    assert("dynamic"@.len() == 7);
    assert("ntk"@.len() == 3);
    assert("yarn"@.len() == 4);
    assert("llama3"@.len() == 6 && "llama3"@[1] == 'l');
    assert("linear"@.len() == 6 && "linear"@[1] == 'i');
}

/// The scheme is named by `rope_type`, or by `type` where there is none.
pub proof fn law_schemes_are_read(scaling: JsonV, name: Seq<char>)
    ensures
        scaling.get("rope_type"@) == Some(JsonV::Str(name)) ==> scheme_of(scaling) == name,
        scaling.get("rope_type"@) is None && scaling.get("type"@) == Some(JsonV::Str(name)) ==> scheme_of(scaling) == name,
{
}

/// The part of a config that the rope settings are read from: `rope_scaling` where it is an
/// object, and `rope_parameters` else.
pub open spec fn scaled_by(cfg: JsonV, scaling: JsonV) -> bool {
    if cfg.get("rope_scaling"@) matches Some(JsonV::Obj(_)) {
        cfg.get("rope_scaling"@) == Some(scaling)
    } else {
        cfg.get("rope_parameters"@) == Some(scaling)
    }
}

/// The settings of a rotary embedding are read under their own names, bit for bit, and have
/// their usual values where they are not given.
pub proof fn law_rope_settings_are_read(cfg: JsonV, scaling: JsonV, max_ctx: usize, bits: u64, n: u64)
    requires
        scaled_by(cfg, scaling),
        n <= usize::MAX,
    ensures
        rope_in(cfg, max_ctx).kind == kind_of(scheme_of(scaling), rope_in(cfg, max_ctx).factor),
        double(cfg, "rope_theta"@, bits) ==> rope_in(cfg, max_ctx).theta == Real::Bits(bits),
        !numeric(cfg, "rope_theta"@) && cfg.get("rope_parameters"@) == Some(scaling) && double(scaling, "rope_theta"@, bits)
            ==> rope_in(cfg, max_ctx).theta == Real::Bits(bits),
        !numeric(cfg, "rope_theta"@) && cfg.get("rope_parameters"@) is None ==> rope_in(cfg, max_ctx).theta == Real::Bits(
            0x40c3_8800_0000_0000,
        ),
        whole(scaling, "original_max_position_embeddings"@, n) ==> rope_in(cfg, max_ctx).original_ctx == n,
        scaling.get("original_max_position_embeddings"@) is None ==> rope_in(cfg, max_ctx).original_ctx == max_ctx,
        double(scaling, "factor"@, bits) ==> rope_in(cfg, max_ctx).factor == Real::Bits(bits),
        !numeric(scaling, "factor"@) ==> rope_in(cfg, max_ctx).factor == Real::Bits(0x3ff0_0000_0000_0000),
        double(scaling, "low_freq_factor"@, bits) ==> rope_in(cfg, max_ctx).low_freq_factor == Real::Bits(bits),
        !numeric(scaling, "low_freq_factor"@) ==> rope_in(cfg, max_ctx).low_freq_factor == Real::Bits(0x3ff0_0000_0000_0000),
        double(scaling, "high_freq_factor"@, bits) ==> rope_in(cfg, max_ctx).high_freq_factor == Real::Bits(bits),
        !numeric(scaling, "high_freq_factor"@) ==> rope_in(cfg, max_ctx).high_freq_factor == Real::Bits(0x4010_0000_0000_0000),
        double(scaling, "beta_fast"@, bits) ==> rope_in(cfg, max_ctx).beta_fast == Real::Bits(bits),
        !numeric(scaling, "beta_fast"@) ==> rope_in(cfg, max_ctx).beta_fast == Real::Bits(0x4040_0000_0000_0000),
        double(scaling, "beta_slow"@, bits) ==> rope_in(cfg, max_ctx).beta_slow == Real::Bits(bits),
        !numeric(scaling, "beta_slow"@) ==> rope_in(cfg, max_ctx).beta_slow == Real::Bits(0x3ff0_0000_0000_0000),
        double(scaling, "attention_factor"@, bits) ==> rope_in(cfg, max_ctx).attn_factor == Real::Bits(bits),
        !numeric(scaling, "attention_factor"@) ==> rope_in(cfg, max_ctx).attn_factor == Real::Bits(0x3ff0_0000_0000_0000),
        double(scaling, "mscale"@, bits) ==> rope_in(cfg, max_ctx).mscale == Real::Bits(bits),
        !numeric(scaling, "mscale"@) ==> rope_in(cfg, max_ctx).mscale == Real::Bits(0),
        double(scaling, "mscale_all_dim"@, bits) ==> rope_in(cfg, max_ctx).mscale_all_dim == Real::Bits(bits),
        !numeric(scaling, "mscale_all_dim"@) ==> rope_in(cfg, max_ctx).mscale_all_dim == Real::Bits(0),
{
}

/// The rope settings of a derived model are those of its config, relative to its context.
pub proof fn law_rope_is_derived(s: Store)
    requires
        derived(s) is Ok,
    ensures
        derived(s)->Ok_0.rope == rope_in(s.model().config, derived(s)->Ok_0.max_ctx),
        derived(s)->Ok_0.windows == windows_in(s.model().config, derived(s)->Ok_0.layers as nat),
{
}

/// How far back a local layer sees is what the config says, under one key or the other; zero is
/// no window.
pub proof fn law_window_sizes_are_read(cfg: JsonV, n: u32)
    ensures
        n > 0 && whole(cfg, "sliding_window"@, n as u64) ==> window_size(cfg) == Some(n),
        n > 0 && !numeric(cfg, "sliding_window"@) && whole(cfg, "attention_window_size"@, n as u64) ==> window_size(cfg)
            == Some(n),
        whole(cfg, "sliding_window"@, 0) ==> window_size(cfg) is None,
        !numeric(cfg, "sliding_window"@) && !numeric(cfg, "attention_window_size"@) ==> window_size(cfg) is None,
{
}

/// Each layer has the window or none: a layer that is local has it, one that is not sees
/// everything.
pub proof fn law_windows_are_given_out(cfg: JsonV, layers: nat, l: int)
    requires
        0 <= l < layers,
    ensures
        windows_in(cfg, layers).len() == layers,
        local_layer(cfg, l) ==> windows_in(cfg, layers)[l] == window_size(cfg),
        !local_layer(cfg, l) ==> windows_in(cfg, layers)[l] is None,
{
}

/// A list of layer types decides, layer by layer: two names make a layer local, and layers that
/// it does not reach are not.
pub proof fn law_layer_types_decide(cfg: JsonV, types: Seq<JsonV>, l: int)
    requires
        cfg.get("layer_types"@) == Some(JsonV::Arr(types)),
        0 <= l,
    ensures
        l < types.len() && types[l] == JsonV::Str("sliding_attention"@) ==> local_layer(cfg, l),
        l < types.len() && types[l] == JsonV::Str("local_attention"@) ==> local_layer(cfg, l),
        l < types.len() && types[l] == JsonV::Str("full_attention"@) ==> !local_layer(cfg, l),
        l >= types.len() ==> !local_layer(cfg, l),
{
    reveal_strlit("sliding_attention");
    reveal_strlit("local_attention");
    reveal_strlit("full_attention");
    assert("sliding_attention"@.len() == 17);
    assert("local_attention"@.len() == 15);
    assert("full_attention"@.len() == 14);
}

/// A pattern of `p` makes every `p`th layer global and all others local.
pub proof fn law_patterns_decide(cfg: JsonV, p: u64, l: int)
    requires
        !(cfg.get("layer_types"@) matches Some(JsonV::Arr(_))),
        whole(cfg, "sliding_window_pattern"@, p),
        p > 1,
        0 <= l,
    ensures
        local_layer(cfg, l * p + p - 1) == false,
        (forall|k: int| #[trigger] (k * p) != l + 1) ==> local_layer(cfg, l),
{
    let q = p as int;
    assert((l * q + q) % q == 0) by {
        assert(l * q + q == q * (l + 1)) by (nonlinear_arith);
        assert((q * (l + 1)) % q == 0) by (nonlinear_arith)
            requires
                q > 1,
        ;
    }
    if !local_layer(cfg, l) {
        let k = (l + 1) / q;
        assert(k * q == l + 1) by (nonlinear_arith)
            requires
                (l + 1) % q == 0,
                q > 1,
                k == (l + 1) / q,
        ;
        assert((k * p) == l + 1);
    }
}

/// Without a list or a pattern, every layer is local, unless sliding windows are turned off, or
/// begin at a later layer.
pub proof fn law_cutoffs_decide(cfg: JsonV, n: u64, l: int)
    requires
        cfg.get("layer_types"@) is None,
        cfg.get("sliding_window_pattern"@) is None,
        0 <= l,
    ensures
        cfg.get("use_sliding_window"@) == Some(JsonV::Bool(false)) ==> !local_layer(cfg, l),
        cfg.get("use_sliding_window"@) != Some(JsonV::Bool(false)) && cfg.get("max_window_layers"@) is None ==> local_layer(
            cfg,
            l,
        ),
        cfg.get("use_sliding_window"@) != Some(JsonV::Bool(false)) && whole(cfg, "max_window_layers"@, n) ==> (local_layer(
            cfg,
            l,
        ) <==> n <= l),
{
}

/// The number of experts that are stored as a stack is the number of slabs of the stack, in the
/// first layer that has one of more than one.
pub proof fn law_stacks_are_counted(s: StoreV, prefix: Seq<char>, l: int, layers: int, name: Seq<char>)
    requires
        0 <= l < layers,
        name == prefix + decimal_of(l as nat) + "."@ + "mlp.experts.gate_up_proj"@ || name == prefix + decimal_of(l as nat)
            + "."@ + "mlp.experts.gate_proj"@ && !s.index.dom().contains(
            prefix + decimal_of(l as nat) + "."@ + "mlp.experts.gate_up_proj"@,
        ),
        s.index.dom().contains(name),
        s.index[name].slabs > 1,
    ensures
        stack_from(s, prefix, l, layers) == Some(s.index[name].slabs),
{
}

/// Where there is no stack, the experts are counted from zero to the first that has no tensor.
pub proof fn law_single_experts_are_counted(s: StoreV, prefix: Seq<char>, layers: int, left: nat, e: nat)
    requires
        layers > 0,
        e < singles_from(s, prefix, layers, 0, left),
    ensures
        exists|l: nat, name: Seq<char>|
            l < 2 && l < layers && s.index.dom().contains(name) && (name == #[trigger] in_layer(prefix, l, "mlp.experts."@
                + decimal_of(e) + ".down_proj.weight"@) || name == in_layer(
                prefix,
                l,
                "block_sparse_moe.experts."@ + decimal_of(e) + ".w2.weight"@,
            )) && #[trigger] s.index.dom().contains(name),
{
    lemma_singles(s, prefix, layers, 0, left, e);
    let a = "mlp.experts."@ + decimal_of(e) + ".down_proj.weight"@;
    let b = "block_sparse_moe.experts."@ + decimal_of(e) + ".w2.weight"@;
    if s.index.dom().contains(in_layer(prefix, 0, a)) {
        let name = in_layer(prefix, 0, a);
        assert(s.index.dom().contains(name));
    } else if s.index.dom().contains(in_layer(prefix, 0, b)) {
        let name = in_layer(prefix, 0, b);
        assert(s.index.dom().contains(name) && name != in_layer(prefix, 0, a));
    } else if s.index.dom().contains(in_layer(prefix, 1, a)) {
        let name = in_layer(prefix, 1, a);
        assert(s.index.dom().contains(name));
    } else {
        let name = in_layer(prefix, 1, b);
        assert(s.index.dom().contains(name) && name != in_layer(prefix, 1, a));
    }
}

proof fn lemma_singles(s: StoreV, prefix: Seq<char>, layers: int, from: nat, left: nat, e: nat)
    requires
        from <= e < singles_from(s, prefix, layers, from, left),
    ensures
        crate::spec::single(s, prefix, layers, e),
    decreases left,
{
    if left > 0 && crate::spec::single(s, prefix, layers, from) && from < e {
        lemma_singles(s, prefix, layers, from + 1, (left - 1) as nat, e);
    }
}

/// The tensors of a layer stand behind the prefix of the first name that has one: what comes
/// before the first `0.` behind a dot, where that ends in `layers.`, `h.` or `blocks.`.
pub proof fn law_prefix_is_found(t: Seq<(Seq<char>, Rec)>, i: int, head: Seq<char>, tail: Seq<char>)
    requires
        0 <= i < t.len(),
        t[i].0 == head + "layers.0."@ + tail || t[i].0 == head + "h.0."@ + tail || t[i].0 == head + "blocks.0."@ + tail,
        forall|k: int| 0 <= k < head.len() ==> !is_at(t[i].0, k, ".0."@),
        forall|j: int| 0 <= j < i ==> prefix_in((#[trigger] t[j]).0) is None,
    ensures
        t[i].0 == head + "layers.0."@ + tail ==> prefix_from(t, 0) == head + "layers."@,
        t[i].0 == head + "h.0."@ + tail ==> prefix_from(t, 0) == head + "h."@,
        t[i].0 == head + "blocks.0."@ + tail ==> prefix_from(t, 0) == head + "blocks."@,
{
    reveal_strlit("layers.0.");
    reveal_strlit("layers.");
    reveal_strlit("h.0.");
    reveal_strlit("h.");
    reveal_strlit("blocks.0.");
    reveal_strlit("blocks.");
    reveal_strlit(".0.");
    let s = t[i].0;
    let n = head.len() as int;
    if s == head + "layers.0."@ + tail {
        assert(s.subrange(0, n + 7) =~= head + "layers."@);
        lemma_prefix(s, head, "layers."@, n + 6);
        lemma_prefix_from(t, 0, i, head + "layers."@);
    }
    if s == head + "h.0."@ + tail {
        assert(s.subrange(0, n + 2) =~= head + "h."@);
        lemma_prefix(s, head, "h."@, n + 1);
        lemma_prefix_from(t, 0, i, head + "h."@);
    }
    if s == head + "blocks.0."@ + tail {
        assert(s.subrange(0, n + 7) =~= head + "blocks."@);
        lemma_prefix(s, head, "blocks."@, n + 6);
        lemma_prefix_from(t, 0, i, head + "blocks."@);
    }
}

proof fn lemma_prefix(s: Seq<char>, head: Seq<char>, word: Seq<char>, at: int)
    requires
        word == "layers."@ || word == "h."@ || word == "blocks."@,
        at == head.len() + word.len() - 1,
        at + 3 <= s.len(),
        s.subrange(0, at + 1) == head + word,
        s[at] == '.' && s[at + 1] == '0' && s[at + 2] == '.',
        forall|k: int| 0 <= k < head.len() ==> !is_at(s, k, ".0."@),
    ensures
        prefix_in(s) == Some(head + word),
{
    reveal_strlit("layers.");
    reveal_strlit("h.");
    reveal_strlit("blocks.");
    reveal_strlit(".0.");
    assert(s.subrange(at, at + 3) =~= ".0."@);
    assert forall|k: int| 0 <= k < at implies !is_at(s, k, ".0."@) by {
        if k >= head.len() {
            assert(s.subrange(k, k + 3)[0] == s[k]);
            assert(s[k] == s.subrange(0, at + 1)[k]);
            assert(s[k] == word[k - head.len()]);
        }
    }
    lemma_first(s, ".0."@, 0, at);
    let full = head + word;
    assert(full.subrange(full.len() - word.len(), full.len() as int) =~= word);
}

proof fn lemma_first(s: Seq<char>, p: Seq<char>, from: int, at: int)
    requires
        0 <= from <= at,
        is_at(s, at, p),
        forall|k: int| from <= k < at ==> !is_at(s, k, p),
    ensures
        first_at(s, from, p) == Some(at),
    decreases at - from,
{
    if from < at {
        lemma_first(s, p, from + 1, at);
    }
}

proof fn lemma_prefix_from(t: Seq<(Seq<char>, Rec)>, from: int, i: int, p: Seq<char>)
    requires
        0 <= from <= i < t.len(),
        prefix_in(t[i].0) == Some(p),
        forall|j: int| 0 <= j < i ==> prefix_in((#[trigger] t[j]).0) is None,
    ensures
        prefix_from(t, from) == p,
    decreases i - from,
{
    if from < i {
        lemma_prefix_from(t, from + 1, i, p);
    }
}

} // verus!
