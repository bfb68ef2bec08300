//! What a GGUF file is worth to the engine: which tensor goes under which name, what its
//! metadata says of the model, and which bytes stand for which numbers.

use vstd::prelude::*;
use crate::float::{single_to_double, Real};
use crate::gguf::{
    aligned, alignment, control, controls, dims_at, engine_suffix, entries_at, format_of, has_magic, last_under, le64,
    number_at, numbered, parsed, renamed, repeated, scalar_at, scalars_at, string_at, strings, tensor_at, tensors_at, u32_at,
    u64_at, with, FaultV, FieldV, GgufV, MetaV,
};
use crate::json::{entry_from, JsonV, NumberV};
use crate::quant::{le16, le32, Dt};
use crate::text::{decimal_of, first_at, law_decimal_reads_back, lemma_first_at};
use crate::tokenizer::lossy;

verus! {

/// A tensor of layer `n` as GGUF names it.
pub open spec fn in_layer(n: nat, name: Seq<char>) -> Seq<char> {
    "blk."@ + decimal_of(n) + "."@ + name
}

/// A tensor of layer `n` as the engine names it.
pub open spec fn in_model(n: nat, name: Seq<char>) -> Seq<char> {
    "model.layers."@ + decimal_of(n) + "."@ + name
}

/// Text without a dot, then a dot: that is where the first dot stands.
proof fn lemma_dot_behind(s: Seq<char>, from: int, at: int)
    requires
        0 <= from <= at < s.len(),
        s[at] == '.',
        forall|k: int| from <= k < at ==> #[trigger] s[k] != '.',
    ensures
        first_at(s, from, "."@) == Some(at),
    decreases at - from,
{
    reveal_strlit(".");
    if from == at {
        assert(s.subrange(at, at + 1) =~= "."@);
    } else {
        assert(s.subrange(from, from + 1)[0] == s[from]);
        lemma_dot_behind(s, from + 1, at);
    }
}

/// A layer's tensor is renamed by its suffix.
proof fn lemma_in_layer(n: nat, name: Seq<char>)
    requires
        n <= u32::MAX,
    ensures
        engine_suffix(name) matches Some(t) ==> renamed(in_layer(n, name)) == Some(in_model(n, t)),
        engine_suffix(name) is None ==> renamed(in_layer(n, name)) is None,
{
    reveal_strlit("blk.");
    reveal_strlit(".");
    reveal_strlit("token_embd.weight");
    reveal_strlit("output_norm.weight");
    reveal_strlit("output.weight");
    law_decimal_reads_back(n);
    let full = in_layer(n, name);
    let digits = decimal_of(n);
    let d = digits.len() as int;
    assert(full[0] == 'b');
    assert("token_embd.weight"@[0] == 't' && "output_norm.weight"@[0] == 'o' && "output.weight"@[0] == 'o');
    assert(full.subrange(0, 4) =~= "blk."@);
    let rest = full.subrange(4, full.len() as int);
    assert(rest =~= digits + "."@ + name);
    assert forall|k: int| 0 <= k < d implies #[trigger] rest[k] != '.' by {
        assert(rest[k] == digits[k]);
    }
    assert(rest[d] == '.');
    lemma_dot_behind(rest, 0, d);
    assert(rest.subrange(0, d) =~= digits);
    assert(rest.subrange(d + 1, rest.len() as int) =~= name);
    assert(digits[0] != '+');
}

proof fn lemma_attention_suffixes()
    ensures
        engine_suffix("attn_norm.weight"@) == Some("input_layernorm.weight"@),
        engine_suffix("attn_q_norm.weight"@) == Some("self_attn.q_norm.weight"@),
        engine_suffix("attn_k_norm.weight"@) == Some("self_attn.k_norm.weight"@),
        engine_suffix("attn_q.weight"@) == Some("self_attn.q_proj.weight"@),
        engine_suffix("attn_k.weight"@) == Some("self_attn.k_proj.weight"@),
        engine_suffix("attn_v.weight"@) == Some("self_attn.v_proj.weight"@),
        engine_suffix("attn_output.weight"@) == Some("self_attn.o_proj.weight"@),
        engine_suffix("attn_q.bias"@) == Some("self_attn.q_proj.bias"@),
        engine_suffix("attn_k.bias"@) == Some("self_attn.k_proj.bias"@),
        engine_suffix("attn_v.bias"@) == Some("self_attn.v_proj.bias"@),
        engine_suffix("ffn_norm.weight"@) == Some("post_attention_layernorm.weight"@),
{
    reveal_strlit("attn_norm.weight");
    reveal_strlit("attn_q_norm.weight");
    reveal_strlit("attn_k_norm.weight");
    reveal_strlit("attn_q.weight");
    reveal_strlit("attn_k.weight");
    reveal_strlit("attn_v.weight");
    reveal_strlit("attn_output.weight");
    reveal_strlit("attn_q.bias");
    reveal_strlit("attn_k.bias");
    reveal_strlit("attn_v.bias");
    reveal_strlit("ffn_norm.weight");
    reveal_strlit("ffn_gate_inp.weight");
    reveal_strlit("exp_probs_b.bias");
    reveal_strlit("ffn_gate_exps.weight");
    reveal_strlit("ffn_up_exps.weight");
    reveal_strlit("ffn_down_exps.weight");
    reveal_strlit("ffn_gate_shexp.weight");
    reveal_strlit("ffn_up_shexp.weight");
    reveal_strlit("ffn_down_shexp.weight");
    reveal_strlit("ffn_gate_inp_shexp.weight");
    reveal_strlit("ffn_gate.weight");
    reveal_strlit("ffn_up.weight");
    reveal_strlit("ffn_down.weight");
    assert("attn_norm.weight"@.len() == 16 && "attn_norm.weight"@[0] == 'a');
    assert("attn_q_norm.weight"@.len() == 18 && "attn_q_norm.weight"@[0] == 'a' && "attn_q_norm.weight"@[5] == 'q');
    assert("attn_k_norm.weight"@.len() == 18 && "attn_k_norm.weight"@[0] == 'a' && "attn_k_norm.weight"@[5] == 'k');
    assert("attn_q.weight"@.len() == 13 && "attn_q.weight"@[0] == 'a' && "attn_q.weight"@[5] == 'q');
    assert("attn_k.weight"@.len() == 13 && "attn_k.weight"@[0] == 'a' && "attn_k.weight"@[5] == 'k');
    assert("attn_v.weight"@.len() == 13 && "attn_v.weight"@[0] == 'a' && "attn_v.weight"@[5] == 'v');
    assert("attn_output.weight"@.len() == 18 && "attn_output.weight"@[0] == 'a' && "attn_output.weight"@[5] == 'o');
    assert("attn_q.bias"@.len() == 11 && "attn_q.bias"@[5] == 'q');
    assert("attn_k.bias"@.len() == 11 && "attn_k.bias"@[5] == 'k');
    assert("attn_v.bias"@.len() == 11 && "attn_v.bias"@[5] == 'v');
    assert("ffn_norm.weight"@.len() == 15 && "ffn_norm.weight"@[4] == 'n');
    assert("ffn_gate_inp.weight"@.len() == 19 && "ffn_gate_inp.weight"@[4] == 'g');
    assert("exp_probs_b.bias"@.len() == 16 && "exp_probs_b.bias"@[0] == 'e');
    assert("ffn_gate_exps.weight"@.len() == 20 && "ffn_gate_exps.weight"@[4] == 'g');
    assert("ffn_up_exps.weight"@.len() == 18 && "ffn_up_exps.weight"@[0] == 'f');
    assert("ffn_down_exps.weight"@.len() == 20 && "ffn_down_exps.weight"@[4] == 'd');
    assert("ffn_gate_shexp.weight"@.len() == 21 && "ffn_gate_shexp.weight"@[4] == 'g');
    assert("ffn_up_shexp.weight"@.len() == 19 && "ffn_up_shexp.weight"@[4] == 'u');
    assert("ffn_down_shexp.weight"@.len() == 21 && "ffn_down_shexp.weight"@[4] == 'd');
    assert("ffn_gate_inp_shexp.weight"@.len() == 25);
    assert("ffn_gate.weight"@.len() == 15 && "ffn_gate.weight"@[4] == 'g');
    assert("ffn_up.weight"@.len() == 13 && "ffn_up.weight"@[0] == 'f');
    assert("ffn_down.weight"@.len() == 15 && "ffn_down.weight"@[4] == 'd');
}

proof fn lemma_expert_suffixes()
    ensures
        engine_suffix("ffn_gate_inp.weight"@) == Some("mlp.gate.weight"@),
        engine_suffix("exp_probs_b.bias"@) == Some("mlp.gate.e_score_correction_bias"@),
        engine_suffix("ffn_gate_exps.weight"@) == Some("mlp.experts.gate_proj"@),
        engine_suffix("ffn_up_exps.weight"@) == Some("mlp.experts.up_proj"@),
        engine_suffix("ffn_down_exps.weight"@) == Some("mlp.experts.down_proj"@),
        engine_suffix("ffn_gate_shexp.weight"@) == Some("mlp.shared_expert.gate_proj.weight"@),
        engine_suffix("ffn_up_shexp.weight"@) == Some("mlp.shared_expert.up_proj.weight"@),
        engine_suffix("ffn_down_shexp.weight"@) == Some("mlp.shared_expert.down_proj.weight"@),
        engine_suffix("ffn_gate_inp_shexp.weight"@) == Some("mlp.shared_expert_gate.weight"@),
{
    reveal_strlit("attn_norm.weight");
    reveal_strlit("attn_q_norm.weight");
    reveal_strlit("attn_k_norm.weight");
    reveal_strlit("attn_q.weight");
    reveal_strlit("attn_k.weight");
    reveal_strlit("attn_v.weight");
    reveal_strlit("attn_output.weight");
    reveal_strlit("attn_q.bias");
    reveal_strlit("attn_k.bias");
    reveal_strlit("attn_v.bias");
    reveal_strlit("ffn_norm.weight");
    reveal_strlit("ffn_gate_inp.weight");
    reveal_strlit("exp_probs_b.bias");
    reveal_strlit("ffn_gate_exps.weight");
    reveal_strlit("ffn_up_exps.weight");
    reveal_strlit("ffn_down_exps.weight");
    reveal_strlit("ffn_gate_shexp.weight");
    reveal_strlit("ffn_up_shexp.weight");
    reveal_strlit("ffn_down_shexp.weight");
    reveal_strlit("ffn_gate_inp_shexp.weight");
    reveal_strlit("ffn_gate.weight");
    reveal_strlit("ffn_up.weight");
    reveal_strlit("ffn_down.weight");
    assert("attn_norm.weight"@.len() == 16 && "attn_norm.weight"@[0] == 'a');
    assert("attn_q_norm.weight"@.len() == 18 && "attn_q_norm.weight"@[0] == 'a' && "attn_q_norm.weight"@[5] == 'q');
    assert("attn_k_norm.weight"@.len() == 18 && "attn_k_norm.weight"@[0] == 'a' && "attn_k_norm.weight"@[5] == 'k');
    assert("attn_q.weight"@.len() == 13 && "attn_q.weight"@[0] == 'a' && "attn_q.weight"@[5] == 'q');
    assert("attn_k.weight"@.len() == 13 && "attn_k.weight"@[0] == 'a' && "attn_k.weight"@[5] == 'k');
    assert("attn_v.weight"@.len() == 13 && "attn_v.weight"@[0] == 'a' && "attn_v.weight"@[5] == 'v');
    assert("attn_output.weight"@.len() == 18 && "attn_output.weight"@[0] == 'a' && "attn_output.weight"@[5] == 'o');
    assert("attn_q.bias"@.len() == 11 && "attn_q.bias"@[5] == 'q');
    assert("attn_k.bias"@.len() == 11 && "attn_k.bias"@[5] == 'k');
    assert("attn_v.bias"@.len() == 11 && "attn_v.bias"@[5] == 'v');
    assert("ffn_norm.weight"@.len() == 15 && "ffn_norm.weight"@[4] == 'n');
    assert("ffn_gate_inp.weight"@.len() == 19 && "ffn_gate_inp.weight"@[4] == 'g');
    assert("exp_probs_b.bias"@.len() == 16 && "exp_probs_b.bias"@[0] == 'e');
    assert("ffn_gate_exps.weight"@.len() == 20 && "ffn_gate_exps.weight"@[4] == 'g');
    assert("ffn_up_exps.weight"@.len() == 18 && "ffn_up_exps.weight"@[0] == 'f');
    assert("ffn_down_exps.weight"@.len() == 20 && "ffn_down_exps.weight"@[4] == 'd');
    assert("ffn_gate_shexp.weight"@.len() == 21 && "ffn_gate_shexp.weight"@[4] == 'g');
    assert("ffn_up_shexp.weight"@.len() == 19 && "ffn_up_shexp.weight"@[4] == 'u');
    assert("ffn_down_shexp.weight"@.len() == 21 && "ffn_down_shexp.weight"@[4] == 'd');
    assert("ffn_gate_inp_shexp.weight"@.len() == 25);
    assert("ffn_gate.weight"@.len() == 15 && "ffn_gate.weight"@[4] == 'g');
    assert("ffn_up.weight"@.len() == 13 && "ffn_up.weight"@[0] == 'f');
    assert("ffn_down.weight"@.len() == 15 && "ffn_down.weight"@[4] == 'd');
}

proof fn lemma_dense_suffixes()
    ensures
        engine_suffix("ffn_gate.weight"@) == Some("mlp.gate_proj.weight"@),
        engine_suffix("ffn_up.weight"@) == Some("mlp.up_proj.weight"@),
        engine_suffix("ffn_down.weight"@) == Some("mlp.down_proj.weight"@),
{
    reveal_strlit("attn_norm.weight");
    reveal_strlit("attn_q_norm.weight");
    reveal_strlit("attn_k_norm.weight");
    reveal_strlit("attn_q.weight");
    reveal_strlit("attn_k.weight");
    reveal_strlit("attn_v.weight");
    reveal_strlit("attn_output.weight");
    reveal_strlit("attn_q.bias");
    reveal_strlit("attn_k.bias");
    reveal_strlit("attn_v.bias");
    reveal_strlit("ffn_norm.weight");
    reveal_strlit("ffn_gate_inp.weight");
    reveal_strlit("exp_probs_b.bias");
    reveal_strlit("ffn_gate_exps.weight");
    reveal_strlit("ffn_up_exps.weight");
    reveal_strlit("ffn_down_exps.weight");
    reveal_strlit("ffn_gate_shexp.weight");
    reveal_strlit("ffn_up_shexp.weight");
    reveal_strlit("ffn_down_shexp.weight");
    reveal_strlit("ffn_gate_inp_shexp.weight");
    reveal_strlit("ffn_gate.weight");
    reveal_strlit("ffn_up.weight");
    reveal_strlit("ffn_down.weight");
    assert("attn_norm.weight"@.len() == 16 && "attn_norm.weight"@[0] == 'a');
    assert("attn_q_norm.weight"@.len() == 18 && "attn_q_norm.weight"@[0] == 'a' && "attn_q_norm.weight"@[5] == 'q');
    assert("attn_k_norm.weight"@.len() == 18 && "attn_k_norm.weight"@[0] == 'a' && "attn_k_norm.weight"@[5] == 'k');
    assert("attn_q.weight"@.len() == 13 && "attn_q.weight"@[0] == 'a' && "attn_q.weight"@[5] == 'q');
    assert("attn_k.weight"@.len() == 13 && "attn_k.weight"@[0] == 'a' && "attn_k.weight"@[5] == 'k');
    assert("attn_v.weight"@.len() == 13 && "attn_v.weight"@[0] == 'a' && "attn_v.weight"@[5] == 'v');
    assert("attn_output.weight"@.len() == 18 && "attn_output.weight"@[0] == 'a' && "attn_output.weight"@[5] == 'o');
    assert("attn_q.bias"@.len() == 11 && "attn_q.bias"@[5] == 'q');
    assert("attn_k.bias"@.len() == 11 && "attn_k.bias"@[5] == 'k');
    assert("attn_v.bias"@.len() == 11 && "attn_v.bias"@[5] == 'v');
    assert("ffn_norm.weight"@.len() == 15 && "ffn_norm.weight"@[4] == 'n');
    assert("ffn_gate_inp.weight"@.len() == 19 && "ffn_gate_inp.weight"@[4] == 'g');
    assert("exp_probs_b.bias"@.len() == 16 && "exp_probs_b.bias"@[0] == 'e');
    assert("ffn_gate_exps.weight"@.len() == 20 && "ffn_gate_exps.weight"@[4] == 'g');
    assert("ffn_up_exps.weight"@.len() == 18 && "ffn_up_exps.weight"@[0] == 'f');
    assert("ffn_down_exps.weight"@.len() == 20 && "ffn_down_exps.weight"@[4] == 'd');
    assert("ffn_gate_shexp.weight"@.len() == 21 && "ffn_gate_shexp.weight"@[4] == 'g');
    assert("ffn_up_shexp.weight"@.len() == 19 && "ffn_up_shexp.weight"@[4] == 'u');
    assert("ffn_down_shexp.weight"@.len() == 21 && "ffn_down_shexp.weight"@[4] == 'd');
    assert("ffn_gate_inp_shexp.weight"@.len() == 25);
    assert("ffn_gate.weight"@.len() == 15 && "ffn_gate.weight"@[4] == 'g');
    assert("ffn_up.weight"@.len() == 13 && "ffn_up.weight"@[0] == 'f');
    assert("ffn_down.weight"@.len() == 15 && "ffn_down.weight"@[4] == 'd');
}

/// The attention tensors of every layer go under the engine's names: queries to queries, keys
/// to keys, values to values, the output to the output, and each norm to its norm.
pub proof fn law_attention_tensors_are_named(n: nat)
    requires
        n <= u32::MAX,
    ensures
        renamed(in_layer(n, "attn_norm.weight"@)) == Some(in_model(n, "input_layernorm.weight"@)),
        renamed(in_layer(n, "attn_q_norm.weight"@)) == Some(in_model(n, "self_attn.q_norm.weight"@)),
        renamed(in_layer(n, "attn_k_norm.weight"@)) == Some(in_model(n, "self_attn.k_norm.weight"@)),
        renamed(in_layer(n, "attn_q.weight"@)) == Some(in_model(n, "self_attn.q_proj.weight"@)),
        renamed(in_layer(n, "attn_k.weight"@)) == Some(in_model(n, "self_attn.k_proj.weight"@)),
        renamed(in_layer(n, "attn_v.weight"@)) == Some(in_model(n, "self_attn.v_proj.weight"@)),
        renamed(in_layer(n, "attn_output.weight"@)) == Some(in_model(n, "self_attn.o_proj.weight"@)),
        renamed(in_layer(n, "attn_q.bias"@)) == Some(in_model(n, "self_attn.q_proj.bias"@)),
        renamed(in_layer(n, "attn_k.bias"@)) == Some(in_model(n, "self_attn.k_proj.bias"@)),
        renamed(in_layer(n, "attn_v.bias"@)) == Some(in_model(n, "self_attn.v_proj.bias"@)),
        renamed(in_layer(n, "ffn_norm.weight"@)) == Some(in_model(n, "post_attention_layernorm.weight"@)),
{
    lemma_attention_suffixes();
    lemma_in_layer(n, "attn_norm.weight"@);
    lemma_in_layer(n, "attn_q_norm.weight"@);
    lemma_in_layer(n, "attn_k_norm.weight"@);
    lemma_in_layer(n, "attn_q.weight"@);
    lemma_in_layer(n, "attn_k.weight"@);
    lemma_in_layer(n, "attn_v.weight"@);
    lemma_in_layer(n, "attn_output.weight"@);
    lemma_in_layer(n, "attn_q.bias"@);
    lemma_in_layer(n, "attn_k.bias"@);
    lemma_in_layer(n, "attn_v.bias"@);
    lemma_in_layer(n, "ffn_norm.weight"@);
}

/// The tensors of the experts of every layer, of what routes to them, and of the shared expert
/// go under the engine's names.
pub proof fn law_expert_tensors_are_named(n: nat)
    requires
        n <= u32::MAX,
    ensures
        renamed(in_layer(n, "ffn_gate_inp.weight"@)) == Some(in_model(n, "mlp.gate.weight"@)),
        renamed(in_layer(n, "exp_probs_b.bias"@)) == Some(in_model(n, "mlp.gate.e_score_correction_bias"@)),
        renamed(in_layer(n, "ffn_gate_exps.weight"@)) == Some(in_model(n, "mlp.experts.gate_proj"@)),
        renamed(in_layer(n, "ffn_up_exps.weight"@)) == Some(in_model(n, "mlp.experts.up_proj"@)),
        renamed(in_layer(n, "ffn_down_exps.weight"@)) == Some(in_model(n, "mlp.experts.down_proj"@)),
        renamed(in_layer(n, "ffn_gate_shexp.weight"@)) == Some(in_model(n, "mlp.shared_expert.gate_proj.weight"@)),
        renamed(in_layer(n, "ffn_up_shexp.weight"@)) == Some(in_model(n, "mlp.shared_expert.up_proj.weight"@)),
        renamed(in_layer(n, "ffn_down_shexp.weight"@)) == Some(in_model(n, "mlp.shared_expert.down_proj.weight"@)),
        renamed(in_layer(n, "ffn_gate_inp_shexp.weight"@)) == Some(in_model(n, "mlp.shared_expert_gate.weight"@)),
{
    lemma_expert_suffixes();
    lemma_in_layer(n, "ffn_gate_inp.weight"@);
    lemma_in_layer(n, "exp_probs_b.bias"@);
    lemma_in_layer(n, "ffn_gate_exps.weight"@);
    lemma_in_layer(n, "ffn_up_exps.weight"@);
    lemma_in_layer(n, "ffn_down_exps.weight"@);
    lemma_in_layer(n, "ffn_gate_shexp.weight"@);
    lemma_in_layer(n, "ffn_up_shexp.weight"@);
    lemma_in_layer(n, "ffn_down_shexp.weight"@);
    lemma_in_layer(n, "ffn_gate_inp_shexp.weight"@);
}

/// The tensors of a dense feed-forward block go under the engine's names.
pub proof fn law_dense_tensors_are_named(n: nat)
    requires
        n <= u32::MAX,
    ensures
        renamed(in_layer(n, "ffn_gate.weight"@)) == Some(in_model(n, "mlp.gate_proj.weight"@)),
        renamed(in_layer(n, "ffn_up.weight"@)) == Some(in_model(n, "mlp.up_proj.weight"@)),
        renamed(in_layer(n, "ffn_down.weight"@)) == Some(in_model(n, "mlp.down_proj.weight"@)),
{
    lemma_dense_suffixes();
    lemma_in_layer(n, "ffn_gate.weight"@);
    lemma_in_layer(n, "ffn_up.weight"@);
    lemma_in_layer(n, "ffn_down.weight"@);
}

/// The tensors that belong to no layer go under the engine's names.
pub proof fn law_model_tensors_are_named()
    ensures
        renamed("token_embd.weight"@) == Some("model.embed_tokens.weight"@),
        renamed("output_norm.weight"@) == Some("model.norm.weight"@),
        renamed("output.weight"@) == Some("lm_head.weight"@),
{
    reveal_strlit("token_embd.weight");
    reveal_strlit("output_norm.weight");
    reveal_strlit("output.weight");
    assert("token_embd.weight"@.len() == 17);
    assert("output_norm.weight"@.len() == 18);
    assert("output.weight"@.len() == 13);
}

/// Nothing else is renamed: a tensor that is given a name belongs to no layer, or has a layer's
/// number and one of the suffixes of the feed-forward and attention blocks.
pub proof fn law_other_tensors_are_left_out(name: Seq<char>)
    requires
        renamed(name) is Some,
    ensures
        name == "token_embd.weight"@ || name == "output_norm.weight"@ || name == "output.weight"@ || exists|d: Seq<char>, s:
            Seq<char>|
            name == #[trigger] ("blk."@ + d + "."@ + s) && (

            s == "attn_norm.weight"@ || 
            s == "attn_q_norm.weight"@ || 
            s == "attn_k_norm.weight"@ || 
            s == "attn_q.weight"@ || 
            s == "attn_k.weight"@ || 
            s == "attn_v.weight"@ || 
            s == "attn_output.weight"@ || 
            s == "attn_q.bias"@ || 
            s == "attn_k.bias"@ || 
            s == "attn_v.bias"@ || 
            s == "ffn_norm.weight"@ || 
            s == "ffn_gate_inp.weight"@ || 
            s == "exp_probs_b.bias"@ || 
            s == "ffn_gate_exps.weight"@ || 
            s == "ffn_up_exps.weight"@ || 
            s == "ffn_down_exps.weight"@ || 
            s == "ffn_gate_shexp.weight"@ || 
            s == "ffn_up_shexp.weight"@ || 
            s == "ffn_down_shexp.weight"@ || 
            s == "ffn_gate_inp_shexp.weight"@ || 
            s == "ffn_gate.weight"@ || 
            s == "ffn_up.weight"@ || 
            s == "ffn_down.weight"@),
{
    reveal_strlit("blk.");
    reveal_strlit(".");
    if name != "token_embd.weight"@ && name != "output_norm.weight"@ && name != "output.weight"@ {
        let rest = name.subrange(4, name.len() as int);
        lemma_first_at(rest, 0, "."@);
        let i = first_at(rest, 0, "."@)->0;
        let d = rest.subrange(0, i);
        let s = rest.subrange(i + 1, rest.len() as int);
        assert(rest =~= d + rest.subrange(i, i + 1) + s);
        assert(name =~= "blk."@ + d + "."@ + s) by {
            assert(name =~= name.subrange(0, 4) + rest);
        }
        assert(engine_suffix(s) is Some);
    }
}

/// What a config says under a key: one value, or nothing.
pub open spec fn says(c: Seq<(Seq<char>, FieldV)>, key: Seq<char>, f: Option<FieldV>) -> bool {
    match f {
        Some(v) => {
            &&& c.contains((key, v))
            &&& forall|k: int| 0 <= k < c.len() && (#[trigger] c[k]).0 == key ==> c[k].1 == v
        },
        None => forall|k: int| 0 <= k < c.len() ==> (#[trigger] c[k]).0 != key,
    }
}

/// One field more changes what is said under its own key alone.
proof fn lemma_with(c: Seq<(Seq<char>, FieldV)>, key: Seq<char>, v: Option<FieldV>)
    ensures
        forall|k: Seq<char>, f: Option<FieldV>|
            k != key && says(c, k, f) ==> #[trigger] says(with(c, key, v), k, f),
        says(c, key, None) ==> says(with(c, key, v), key, v),
{
    let d = with(c, key, v);
    assert forall|k: Seq<char>, f: Option<FieldV>| k != key && says(c, k, f) implies #[trigger] says(d, k, f) by {
        if f is Some {
            let i = choose|i: int| 0 <= i < c.len() && c[i] == (k, f->0);
            assert(d[i] == (k, f->0));
        }
        assert forall|i: int| 0 <= i < d.len() && (#[trigger] d[i]).0 == k implies f is Some && d[i].1 == f->0 by {
            assert(i < c.len());
            assert(c[i] == d[i]);
        }
    }
    if says(c, key, None) && v is Some {
        assert(d[c.len() as int] == (key, v->0));
        assert forall|i: int| 0 <= i < d.len() && (#[trigger] d[i]).0 == key implies d[i].1 == v->0 by {
            if i < c.len() {
                assert(c[i] == d[i]);
            }
        }
    }
}

/// What the config says under each of its keys.
#[verifier::rlimit(60)]
proof fn lemma_config(g: GgufV)
    ensures
        says(g.config(), "model_type"@, Some(FieldV::Str(g.arch()))),
        says(g.config(), "architectures"@, Some(FieldV::List(g.arch() + "ForCausalLM"@))),
        says(g.config(), "num_hidden_layers"@, g.whole("block_count"@)),
        says(g.config(), "num_attention_heads"@, g.whole("attention.head_count"@)),
        says(g.config(), "num_key_value_heads"@, g.whole("attention.head_count_kv"@)),
        says(g.config(), "head_dim"@, g.whole("attention.key_length"@)),
        says(g.config(), "max_position_embeddings"@, g.whole("context_length"@)),
        says(g.config(), "num_experts"@, g.experts()),
        says(g.config(), "num_experts_per_tok"@, g.experts_used()),
        says(g.config(), "routed_scaling_factor"@, g.measure("expert_weights_scale"@)),
        says(g.config(), "n_group"@, g.whole("expert_group_count"@)),
        says(g.config(), "topk_group"@, g.whole("expert_group_used_count"@)),
        says(g.config(), "scoring_func"@, g.scoring()),
        says(g.config(), "norm_topk_prob"@, Some(FieldV::Bool(g.renormalised()))),
        says(g.config(), "rms_norm_eps"@, g.measure("attention.layer_norm_rms_epsilon"@)),
        says(g.config(), "rope_theta"@, g.measure("rope.freq_base"@)),
        says(g.config(), "sliding_window"@, g.whole("attention.sliding_window"@)),
        says(g.config(), "rope_scaling"@, g.scaling()),
        says(g.config(), "bos_token_id"@, g.first_token()),
        says(g.config(), "eos_token_id"@, g.token("tokenizer.ggml.eos_token_id"@)),
{
    reveal_strlit("model_type");
    reveal_strlit("architectures");
    reveal_strlit("num_hidden_layers");
    reveal_strlit("num_attention_heads");
    reveal_strlit("num_key_value_heads");
    reveal_strlit("head_dim");
    reveal_strlit("max_position_embeddings");
    reveal_strlit("num_experts");
    reveal_strlit("num_experts_per_tok");
    reveal_strlit("routed_scaling_factor");
    reveal_strlit("n_group");
    reveal_strlit("topk_group");
    reveal_strlit("scoring_func");
    reveal_strlit("norm_topk_prob");
    reveal_strlit("rms_norm_eps");
    reveal_strlit("rope_theta");
    reveal_strlit("sliding_window");
    reveal_strlit("rope_scaling");
    reveal_strlit("bos_token_id");
    reveal_strlit("eos_token_id");
    assert("model_type"@.len() == 10 && "model_type"@[0] == 'm');
    assert("architectures"@.len() == 13);
    assert("num_hidden_layers"@.len() == 17);
    assert("num_attention_heads"@.len() == 19 && "num_attention_heads"@[4] == 'a');
    assert("num_key_value_heads"@.len() == 19 && "num_key_value_heads"@[4] == 'k');
    assert("head_dim"@.len() == 8);
    assert("max_position_embeddings"@.len() == 23);
    assert("num_experts"@.len() == 11);
    assert("num_experts_per_tok"@.len() == 19 && "num_experts_per_tok"@[4] == 'e');
    assert("routed_scaling_factor"@.len() == 21);
    assert("n_group"@.len() == 7);
    assert("topk_group"@.len() == 10 && "topk_group"@[0] == 't');
    assert("scoring_func"@.len() == 12 && "scoring_func"@[0] == 's');
    assert("norm_topk_prob"@.len() == 14 && "norm_topk_prob"@[0] == 'n');
    assert("rms_norm_eps"@.len() == 12 && "rms_norm_eps"@[0] == 'r' && "rms_norm_eps"@[1] == 'm');
    assert("rope_theta"@.len() == 10 && "rope_theta"@[0] == 'r');
    assert("sliding_window"@.len() == 14 && "sliding_window"@[0] == 's');
    assert("rope_scaling"@.len() == 12 && "rope_scaling"@[0] == 'r' && "rope_scaling"@[1] == 'o');
    assert("bos_token_id"@.len() == 12 && "bos_token_id"@[0] == 'b');
    assert("eos_token_id"@.len() == 12 && "eos_token_id"@[0] == 'e');
    let c0 = Seq::<(Seq<char>, FieldV)>::empty();
    let c1 = with(c0, "model_type"@, Some(FieldV::Str(g.arch())));
    lemma_with(c0, "model_type"@, Some(FieldV::Str(g.arch())));
    let c2 = with(c1, "architectures"@, Some(FieldV::List(g.arch() + "ForCausalLM"@)));
    lemma_with(c1, "architectures"@, Some(FieldV::List(g.arch() + "ForCausalLM"@)));
    let c3 = with(c2, "num_hidden_layers"@, g.whole("block_count"@));
    lemma_with(c2, "num_hidden_layers"@, g.whole("block_count"@));
    let c4 = with(c3, "num_attention_heads"@, g.whole("attention.head_count"@));
    lemma_with(c3, "num_attention_heads"@, g.whole("attention.head_count"@));
    let c5 = with(c4, "num_key_value_heads"@, g.whole("attention.head_count_kv"@));
    lemma_with(c4, "num_key_value_heads"@, g.whole("attention.head_count_kv"@));
    let c6 = with(c5, "head_dim"@, g.whole("attention.key_length"@));
    lemma_with(c5, "head_dim"@, g.whole("attention.key_length"@));
    let c7 = with(c6, "max_position_embeddings"@, g.whole("context_length"@));
    lemma_with(c6, "max_position_embeddings"@, g.whole("context_length"@));
    let c8 = with(c7, "num_experts"@, g.experts());
    lemma_with(c7, "num_experts"@, g.experts());
    let c9 = with(c8, "num_experts_per_tok"@, g.experts_used());
    lemma_with(c8, "num_experts_per_tok"@, g.experts_used());
    let c10 = with(c9, "routed_scaling_factor"@, g.measure("expert_weights_scale"@));
    lemma_with(c9, "routed_scaling_factor"@, g.measure("expert_weights_scale"@));
    let c11 = with(c10, "n_group"@, g.whole("expert_group_count"@));
    lemma_with(c10, "n_group"@, g.whole("expert_group_count"@));
    let c12 = with(c11, "topk_group"@, g.whole("expert_group_used_count"@));
    lemma_with(c11, "topk_group"@, g.whole("expert_group_used_count"@));
    let c13 = with(c12, "scoring_func"@, g.scoring());
    lemma_with(c12, "scoring_func"@, g.scoring());
    let c14 = with(c13, "norm_topk_prob"@, Some(FieldV::Bool(g.renormalised())));
    lemma_with(c13, "norm_topk_prob"@, Some(FieldV::Bool(g.renormalised())));
    let c15 = with(c14, "rms_norm_eps"@, g.measure("attention.layer_norm_rms_epsilon"@));
    lemma_with(c14, "rms_norm_eps"@, g.measure("attention.layer_norm_rms_epsilon"@));
    let c16 = with(c15, "rope_theta"@, g.measure("rope.freq_base"@));
    lemma_with(c15, "rope_theta"@, g.measure("rope.freq_base"@));
    let c17 = with(c16, "sliding_window"@, g.whole("attention.sliding_window"@));
    lemma_with(c16, "sliding_window"@, g.whole("attention.sliding_window"@));
    let c18 = with(c17, "rope_scaling"@, g.scaling());
    lemma_with(c17, "rope_scaling"@, g.scaling());
    let c19 = with(c18, "bos_token_id"@, g.first_token());
    lemma_with(c18, "bos_token_id"@, g.first_token());
    let c20 = with(c19, "eos_token_id"@, g.token("tokenizer.ggml.eos_token_id"@));
    lemma_with(c19, "eos_token_id"@, g.token("tokenizer.ggml.eos_token_id"@));
    assert(g.config() == c20);
}

/// Whole numbers that the file gives under its architecture are said in the config under the
/// key that the engine reads, and what the file does not give is not said.
pub proof fn law_whole_numbers_are_carried_over(g: GgufV, v: i64)
    ensures
        g.get(g.arch() + "."@ + "block_count"@) == Some(MetaV::Int(v)) ==> says(g.config(), "num_hidden_layers"@, Some(FieldV::Int(v))),
        g.get(g.arch() + "."@ + "block_count"@) is None ==> says(g.config(), "num_hidden_layers"@, None),
        g.get(g.arch() + "."@ + "attention.head_count"@) == Some(MetaV::Int(v)) ==> says(g.config(), "num_attention_heads"@, Some(FieldV::Int(v))),
        g.get(g.arch() + "."@ + "attention.head_count"@) is None ==> says(g.config(), "num_attention_heads"@, None),
        g.get(g.arch() + "."@ + "attention.head_count_kv"@) == Some(MetaV::Int(v)) ==> says(g.config(), "num_key_value_heads"@, Some(FieldV::Int(v))),
        g.get(g.arch() + "."@ + "attention.head_count_kv"@) is None ==> says(g.config(), "num_key_value_heads"@, None),
        g.get(g.arch() + "."@ + "attention.key_length"@) == Some(MetaV::Int(v)) ==> says(g.config(), "head_dim"@, Some(FieldV::Int(v))),
        g.get(g.arch() + "."@ + "attention.key_length"@) is None ==> says(g.config(), "head_dim"@, None),
        g.get(g.arch() + "."@ + "context_length"@) == Some(MetaV::Int(v)) ==> says(g.config(), "max_position_embeddings"@, Some(FieldV::Int(v))),
        g.get(g.arch() + "."@ + "context_length"@) is None ==> says(g.config(), "max_position_embeddings"@, None),
        g.get(g.arch() + "."@ + "expert_group_count"@) == Some(MetaV::Int(v)) ==> says(g.config(), "n_group"@, Some(FieldV::Int(v))),
        g.get(g.arch() + "."@ + "expert_group_count"@) is None ==> says(g.config(), "n_group"@, None),
        g.get(g.arch() + "."@ + "expert_group_used_count"@) == Some(MetaV::Int(v)) ==> says(g.config(), "topk_group"@, Some(FieldV::Int(v))),
        g.get(g.arch() + "."@ + "expert_group_used_count"@) is None ==> says(g.config(), "topk_group"@, None),
        g.get(g.arch() + "."@ + "attention.sliding_window"@) == Some(MetaV::Int(v)) ==> says(g.config(), "sliding_window"@, Some(FieldV::Int(v))),
        g.get(g.arch() + "."@ + "attention.sliding_window"@) is None ==> says(g.config(), "sliding_window"@, None),
{
    lemma_config(g);
}

/// The numbers that need not be whole are carried over too, with their bits.
pub proof fn law_measures_are_carried_over(g: GgufV, bits: u64)
    ensures
        g.get(g.arch() + "."@ + "expert_weights_scale"@) == Some(MetaV::Float(bits)) ==> says(
            g.config(),
            "routed_scaling_factor"@,
            Some(FieldV::Real(Real::Bits(bits))),
        ),
        g.get(g.arch() + "."@ + "expert_weights_scale"@) is None ==> says(g.config(), "routed_scaling_factor"@, None),
        g.get(g.arch() + "."@ + "attention.layer_norm_rms_epsilon"@) == Some(MetaV::Float(bits)) ==> says(
            g.config(),
            "rms_norm_eps"@,
            Some(FieldV::Real(Real::Bits(bits))),
        ),
        g.get(g.arch() + "."@ + "attention.layer_norm_rms_epsilon"@) is None ==> says(g.config(), "rms_norm_eps"@, None),
        g.get(g.arch() + "."@ + "rope.freq_base"@) == Some(MetaV::Float(bits)) ==> says(
            g.config(),
            "rope_theta"@,
            Some(FieldV::Real(Real::Bits(bits))),
        ),
        g.get(g.arch() + "."@ + "rope.freq_base"@) is None ==> says(g.config(), "rope_theta"@, None),
{
    lemma_config(g);
}

/// The experts of a layer and of a token are said where the file declares any; zero declares
/// none.
pub proof fn law_experts_are_carried_over(g: GgufV, n: i64, used: i64)
    requires
        g.get(g.arch() + "."@ + "expert_count"@) == Some(MetaV::Int(n)),
        g.get(g.arch() + "."@ + "expert_used_count"@) == Some(MetaV::Int(used)),
    ensures
        n != 0 ==> says(g.config(), "num_experts"@, Some(FieldV::Int(n))),
        n != 0 ==> says(g.config(), "num_experts_per_tok"@, Some(FieldV::Int(used))),
        n == 0 ==> says(g.config(), "num_experts"@, None) && says(g.config(), "num_experts_per_tok"@, None),
{
    lemma_config(g);
}

/// The gating function is a sigmoid where the file says 2 and a softmax where it says another
/// number; where it says none, so does the config.
pub proof fn law_gating_is_carried_over(g: GgufV, n: i64)
    ensures
        g.get(g.arch() + "."@ + "expert_gating_func"@) == Some(MetaV::Int(n)) ==> says(
            g.config(),
            "scoring_func"@,
            Some(FieldV::Str(if n == 2 { "sigmoid"@ } else { "softmax"@ })),
        ),
        g.get(g.arch() + "."@ + "expert_gating_func"@) is None ==> says(g.config(), "scoring_func"@, None),
{
    lemma_config(g);
}

/// Whether routing weights are renormalised is what the file states; where it states nothing,
/// three architectures do not and all others do.
pub proof fn law_renormalising_is_carried_over(g: GgufV, b: bool)
    ensures
        g.get(g.arch() + "."@ + "expert_weights_norm"@) == Some(MetaV::Bool(b)) ==> says(
            g.config(),
            "norm_topk_prob"@,
            Some(FieldV::Bool(b)),
        ),
        g.get(g.arch() + "."@ + "expert_weights_norm"@) is None && (g.arch() == "olmoe"@ || g.arch() == "qwen2moe"@
            || g.arch() == "grok"@) ==> says(g.config(), "norm_topk_prob"@, Some(FieldV::Bool(false))),
        g.get(g.arch() + "."@ + "expert_weights_norm"@) is None && g.arch() != "olmoe"@ && g.arch() != "qwen2moe"@
            && g.arch() != "grok"@ ==> says(g.config(), "norm_topk_prob"@, Some(FieldV::Bool(true))),
{
    lemma_config(g);
}

/// A whole number for a flag is set where it is not zero.
pub proof fn law_numbers_serve_as_flags(g: GgufV, n: i64)
    requires
        g.get(g.arch() + "."@ + "expert_weights_norm"@) == Some(MetaV::Int(n)),
    ensures
        says(g.config(), "norm_topk_prob"@, Some(FieldV::Bool(n != 0))),
{
    lemma_config(g);
}

/// The model's kind is its architecture, and `llama` where the file names none.
pub proof fn law_architecture_is_carried_over(g: GgufV, name: Seq<char>)
    ensures
        g.get("general.architecture"@) == Some(MetaV::Str(name)) ==> g.arch() == name && says(
            g.config(),
            "model_type"@,
            Some(FieldV::Str(name)),
        ) && says(g.config(), "architectures"@, Some(FieldV::List(name + "ForCausalLM"@))),
        g.get("general.architecture"@) is None ==> g.arch() == "llama"@,
{
    lemma_config(g);
}

/// Rope scaling is said where the factor is above one, with its type, or `linear` where none is
/// named, and the context that the model was trained at; else not.
pub proof fn law_rope_scaling_is_carried_over(g: GgufV, bits: u64, kind: Seq<char>, context: i64)
    requires
        g.get(g.arch() + "."@ + "rope.scaling.factor"@) == Some(MetaV::Float(bits)),
        g.get(g.arch() + "."@ + "rope.scaling.original_context_length"@) == Some(MetaV::Int(context)),
    ensures
        Real::Bits(bits).exceeds_one() && g.get(g.arch() + "."@ + "rope.scaling.type"@) == Some(MetaV::Str(kind)) ==> says(
            g.config(),
            "rope_scaling"@,
            Some(FieldV::Scaling(kind, Real::Bits(bits), Some(context))),
        ),
        Real::Bits(bits).exceeds_one() && g.get(g.arch() + "."@ + "rope.scaling.type"@) is None ==> says(
            g.config(),
            "rope_scaling"@,
            Some(FieldV::Scaling("linear"@, Real::Bits(bits), Some(context))),
        ),
        !Real::Bits(bits).exceeds_one() ==> says(g.config(), "rope_scaling"@, None),
{
    lemma_config(g);
}

/// The token that ends a text is said as the file gives it, and so is the one that begins a
/// text, unless the file says not to add it.
pub proof fn law_end_tokens_are_carried_over(g: GgufV, bos: i64, eos: i64)
    requires
        g.get("tokenizer.ggml.bos_token_id"@) == Some(MetaV::Int(bos)),
        g.get("tokenizer.ggml.eos_token_id"@) == Some(MetaV::Int(eos)),
    ensures
        says(g.config(), "eos_token_id"@, Some(FieldV::Int(eos))),
        g.get("tokenizer.ggml.add_bos_token"@) == Some(MetaV::Bool(false)) ==> says(g.config(), "bos_token_id"@, None),
        g.get("tokenizer.ggml.add_bos_token"@) == Some(MetaV::Bool(true)) || g.get("tokenizer.ggml.add_bos_token"@) is None
            ==> says(g.config(), "bos_token_id"@, Some(FieldV::Int(bos))),
{
    lemma_config(g);
}

/// Of several entries under a key the last one counts, and a key without an entry has no value.
pub proof fn law_last_entry_counts(g: GgufV, key: Seq<char>, i: int)
    ensures
        0 <= i < g.meta.len() && g.meta[i].0 == key && (forall|j: int|
            i < j < g.meta.len() ==> (#[trigger] g.meta[j]).0 != key) ==> g.get(key) == Some(g.meta[i].1),
        (forall|j: int| 0 <= j < g.meta.len() ==> (#[trigger] g.meta[j]).0 != key) ==> g.get(key) is None,
{
    if 0 <= i < g.meta.len() && g.meta[i].0 == key && (forall|j: int|
        i < j < g.meta.len() ==> (#[trigger] g.meta[j]).0 != key) {
        lemma_last(g.meta, key, g.meta.len(), i);
    }
    if forall|j: int| 0 <= j < g.meta.len() ==> (#[trigger] g.meta[j]).0 != key {
        lemma_last(g.meta, key, g.meta.len(), -1);
    }
}

proof fn lemma_last(m: Seq<(Seq<char>, MetaV)>, key: Seq<char>, n: nat, i: int)
    requires
        n <= m.len(),
        -1 <= i < n,
        i >= 0 ==> m[i].0 == key,
        forall|j: int| i < j < n ==> (#[trigger] m[j]).0 != key,
    ensures
        last_under(m, key, n) == (if i >= 0 {
            Some(m[i].1)
        } else {
            None
        }),
    decreases n,
{
    if i + 1 < n {
        assert(m[n - 1].0 != key);
        lemma_last(m, key, (n - 1) as nat, i);
    }
}

/// Which ggml type is read as which format.
pub proof fn law_types_are_read_as_formats(t: u32)
    ensures
        format_of(0) == Some(Dt::F32),
        format_of(1) == Some(Dt::F16),
        format_of(30) == Some(Dt::BF16),
        format_of(2) == Some(Dt::Q4),
        format_of(6) == Some(Dt::Q5),
        format_of(8) == Some(Dt::Q8),
        format_of(12) == Some(Dt::Q4K),
        format_of(14) == Some(Dt::Q6K),
        format_of(t) is Some ==> t == 0 || t == 1 || t == 30 || t == 2 || t == 6 || t == 8 || t == 12 || t == 14,
{
}

/// The data of a file begins at the first multiple of its alignment behind the header.
pub proof fn law_data_is_aligned(i: int, a: int, other: int)
    requires
        0 <= i,
        0 < a,
    ensures
        aligned(i, a) >= i,
        aligned(i, a) % a == 0,
        other >= i && other % a == 0 ==> aligned(i, a) <= other,
{
    assert(aligned(i, a) % a == 0) by (nonlinear_arith)
        requires
            0 <= i,
            0 < a,
            aligned(i, a) == (if i % a == 0 { i } else { i + (a - i % a) }),
    {
        let q = i / a;
        assert(i == a * q + i % a);
        if i % a != 0 {
            assert(i + (a - i % a) == a * (q + 1));
            assert((a * (q + 1)) % a == 0);
        }
    }
    if other >= i && other % a == 0 && i % a != 0 {
        let q = i / a;
        let p = other / a;
        assert(i == a * q + i % a && other == a * p) by (nonlinear_arith)
            requires
                0 < a,
                q == i / a,
                p == other / a,
                other % a == 0,
        ;
        assert(0 < i % a < a) by (nonlinear_arith)
            requires
                0 < a,
                i % a != 0,
        ;
        assert(p >= q + 1) by (nonlinear_arith)
            requires
                a * p >= a * q + i % a,
                0 < i % a,
                0 < a,
        ;
        assert(a * p >= a * (q + 1)) by (nonlinear_arith)
            requires
                p >= q + 1,
                0 < a,
        ;
        assert(a * (q + 1) == a * q + a) by (nonlinear_arith);
    }
}

/// The alignment is what the file states, 32 where it states none, and never below one.
pub proof fn law_alignment_is_stated(g: GgufV, a: i64)
    ensures
        g.get("general.alignment"@) is None ==> alignment(g.meta) == 32,
        g.get("general.alignment"@) == Some(MetaV::Int(a)) && a >= 1 ==> alignment(g.meta) == a,
        g.get("general.alignment"@) == Some(MetaV::Int(a)) && a < 1 ==> alignment(g.meta) == 1,
{
}

/// Byte `k` of a number, low byte first.
pub open spec fn byte_of(v: int, k: nat) -> int
    decreases k,
{
    if k == 0 {
        v % 256
    } else {
        byte_of(v / 256, (k - 1) as nat)
    }
}

/// Whether the `w` bytes at `i` are those of `v`, low byte first, negative numbers as their
/// complement.
pub open spec fn written(b: Seq<u8>, i: int, v: int, w: nat) -> bool {
    forall|k: nat| k < w ==> b[i + k] == #[trigger] byte_of(v, k)
}

/// Numbers are read from their bytes: the unsigned kinds as they stand, the signed ones from
/// their complement.
pub proof fn law_numbers_are_read(b: Seq<u8>, i: int, v: int)
    ensures
        0 <= v < 256 && written(b, i, v, 1) ==> number_at(b, i, 0) == MetaV::Int(v as i64),
        -128 <= v < 128 && written(b, i, v, 1) ==> number_at(b, i, 1) == MetaV::Int(v as i64),
        0 <= v < 65536 && written(b, i, v, 2) ==> number_at(b, i, 2) == MetaV::Int(v as i64),
        -32768 <= v < 32768 && written(b, i, v, 2) ==> number_at(b, i, 3) == MetaV::Int(v as i64),
        0 <= v < 4294967296 && written(b, i, v, 4) ==> number_at(b, i, 4) == MetaV::Int(v as i64),
        -2147483648 <= v < 2147483648 && written(b, i, v, 4) ==> number_at(b, i, 5) == MetaV::Int(v as i64),
        i64::MIN <= v <= i64::MAX && written(b, i, v, 8) ==> number_at(b, i, 10) == MetaV::Int(v as i64) && number_at(
            b,
            i,
            11,
        ) == MetaV::Int(v as i64),
        0 <= v < 4294967296 && written(b, i, v, 4) ==> number_at(b, i, 6) == MetaV::Float(single_to_double(v as u32)),
        0 <= v <= u64::MAX && written(b, i, v, 8) ==> number_at(b, i, 12) == MetaV::Float(v as u64),
        0 <= v < 256 && written(b, i, v, 1) ==> number_at(b, i, 7) == MetaV::Bool(v != 0),
{
    if written(b, i, v, 1) {
        lemma_first_bytes(b, i, v, 1);
    }
    if written(b, i, v, 2) {
        lemma_first_bytes(b, i, v, 2);
        lemma_complement(v, 65536);
    }
    if written(b, i, v, 4) {
        lemma_first_bytes(b, i, v, 4);
        lemma_complement(v, 4294967296);
    }
    if written(b, i, v, 8) {
        lemma_first_bytes(b, i, v, 8);
        lemma_complement(v, 18446744073709551616);
    }
    lemma_complement(v, 256);
}

/// What is left of a number of `span` values, or of its complement.
proof fn lemma_complement(v: int, span: int)
    requires
        span > 0,
    ensures
        0 <= v < span ==> v % span == v,
        -span <= v < 0 ==> v % span == v + span,
{
    if 0 <= v < span {
        assert(v % span == v) by (nonlinear_arith)
            requires
                0 <= v < span,
        ;
    }
    if -span <= v < 0 {
        assert(v % span == v + span) by (nonlinear_arith)
            requires
                -span <= v < 0,
        ;
    }
}

/// Bytes of a number make it up again, but for what is beyond them.
proof fn lemma_first_bytes(b: Seq<u8>, i: int, v: int, w: nat)
    requires
        written(b, i, v, w),
        w == 1 || w == 2 || w == 4 || w == 8,
    ensures
        w == 1 ==> b[i] as int == v % 256,
        w == 2 ==> le16(b, i) as int == v % 65536,
        w == 4 ==> le32(b, i) as int == v % 4294967296,
        w == 8 ==> le64(b, i) as int == v % 18446744073709551616,
{
    reveal_with_fuel(byte_of, 5);
    assert(b[i + 0nat] == byte_of(v, 0));
    if w == 1 {
    } else {
        assert(b[i + 1nat] == byte_of(v, 1));
        if w == 2 {
            lemma_two(v);
        } else {
            assert(b[i + 2nat] == byte_of(v, 2));
            assert(b[i + 3nat] == byte_of(v, 3));
            lemma_four(v);
            if w == 8 {
                let u = v / 256 / 256 / 256 / 256;
                assert(b[i + 4nat] == byte_of(v, 4));
                assert(b[i + 5nat] == byte_of(v, 5));
                assert(b[i + 6nat] == byte_of(v, 6));
                assert(b[i + 7nat] == byte_of(v, 7));
                assert(byte_of(v, 4) == byte_of(u, 0) && byte_of(v, 5) == byte_of(u, 1) && byte_of(v, 6) == byte_of(u, 2)
                    && byte_of(v, 7) == byte_of(u, 3)) by {
                    reveal_with_fuel(byte_of, 9);
                }
                lemma_four(u);
                assert(le32(b, i + 4) as int == u % 4294967296);
                lemma_eight(v);
            }
        }
    }
}

proof fn lemma_two(v: int)
    ensures
        v % 256 + 256 * (v / 256 % 256) == v % 65536,
{
}

proof fn lemma_four(v: int)
    ensures
        v % 256 + 256 * (v / 256 % 256) + 65536 * (v / 256 / 256 % 256) + 16777216 * (v / 256 / 256 / 256 % 256) == v
            % 4294967296,
        0 <= v % 4294967296 < 4294967296,
{
    let a = v / 256;
    let b = a / 256;
    let c = b / 256;
    let d = c / 256;
    assert(v == v % 256 + 256 * a);
    assert(a == a % 256 + 256 * b);
    assert(b == b % 256 + 256 * c);
    assert(c == c % 256 + 256 * d);
    let r = v % 256 + 256 * (a % 256) + 65536 * (b % 256) + 16777216 * (c % 256);
    assert(v == r + 4294967296 * d && 0 <= r < 4294967296);
}

proof fn lemma_eight(v: int)
    ensures
        v % 4294967296 + 4294967296 * (v / 256 / 256 / 256 / 256 % 4294967296) == v % 18446744073709551616,
        0 <= v % 18446744073709551616 < 18446744073709551616,
{
    let u = v / 256 / 256 / 256 / 256;
    assert(u == v / 4294967296);
    let t = u / 4294967296;
    assert(u == u % 4294967296 + 4294967296 * t);
    assert(v == v % 4294967296 + 4294967296 * u);
    let r = v % 4294967296 + 4294967296 * (u % 4294967296);
    assert(v == r + 18446744073709551616 * t && 0 <= r < 18446744073709551616);
}

/// A text is read from its length in eight bytes and its own bytes.
pub proof fn law_texts_are_read(b: Seq<u8>, i: int, raw: Seq<u8>)
    requires
        0 <= i,
        written(b, i, raw.len() as int, 8),
        i + 8 + raw.len() <= b.len() <= usize::MAX,
        b.subrange(i + 8, i + 8 + raw.len()) == raw,
    ensures
        string_at(b, i) == Ok::<(Seq<char>, int), FaultV>((lossy(raw), i + 8 + raw.len())),
        scalar_at(b, i, 8) == Ok::<(MetaV, int), FaultV>((MetaV::Str(lossy(raw)), i + 8 + raw.len())),
{
    law_numbers_are_read(b, i, raw.len() as int);
    assert(number_at(b, i, 12) == MetaV::Float(raw.len() as u64));
}

/// Dimensions are read from eight bytes each.
proof fn lemma_dims(b: Seq<u8>, i: int, dims: Seq<int>, n: nat)
    requires
        0 <= i,
        n <= dims.len(),
        i + 8 * n <= b.len() <= usize::MAX,
        forall|k: int| 0 <= k < n ==> 0 <= #[trigger] dims[k] <= usize::MAX && written(b, i + 8 * k, dims[k], 8),
    ensures
        dims_at(b, i, n) is Ok,
        dims_at(b, i, n)->Ok_0.0 == Seq::new(n, |k: int| dims[k] as usize),
        dims_at(b, i, n)->Ok_0.1 == i + 8 * n,
    decreases n,
{
    if n == 0 {
        assert(dims_at(b, i, n)->Ok_0.0 =~= Seq::new(n, |k: int| dims[k] as usize));
    } else {
        let m = (n - 1) as nat;
        lemma_dims(b, i, dims, m);
        assert(written(b, i + 8 * m, dims[m as int], 8));
        law_numbers_are_read(b, i + 8 * m, dims[m as int]);
        assert(number_at(b, i + 8 * m, 12) == MetaV::Float(dims[m as int] as u64));
        assert(dims_at(b, i, n)->Ok_0.0 =~= Seq::new(n, |k: int| dims[k] as usize));
    }
}

/// A tensor is read from its name, the number of its dimensions, the dimensions, the fastest
/// first, its type and its offset; the engine has the slowest dimension first.
pub proof fn law_tensors_are_read(b: Seq<u8>, i: int, raw: Seq<u8>, dims: Seq<int>, t: u32, offset: int)
    requires
        0 <= i,
        1 <= dims.len() <= 4,
        i + 8 + raw.len() + 4 + 8 * dims.len() + 12 <= b.len() <= usize::MAX,
        written(b, i, raw.len() as int, 8),
        b.subrange(i + 8, i + 8 + raw.len()) == raw,
        written(b, i + 8 + raw.len(), dims.len() as int, 4),
        forall|k: int|
            0 <= k < dims.len() ==> 0 <= #[trigger] dims[k] <= usize::MAX && written(b, i + 12 + raw.len() + 8 * k, dims[k], 8),
        written(b, i + 12 + raw.len() + 8 * dims.len(), t as int, 4),
        0 <= offset <= usize::MAX,
        written(b, i + 16 + raw.len() + 8 * dims.len(), offset, 8),
        format_of(t) is Some,
    ensures
        tensor_at(b, i) matches Ok(r) && r.1 == i + 24 + raw.len() + 8 * dims.len() && r.0.name == lossy(raw)
            && r.0.dt == format_of(t)->0 && r.0.offset == offset && r.0.shape.len() == dims.len() && forall|k: int|
            0 <= k < dims.len() ==> #[trigger] r.0.shape[k] == dims[dims.len() - 1 - k],
{
    let n = dims.len();
    law_texts_are_read(b, i, raw);
    let j = i + 8 + raw.len();
    law_numbers_are_read(b, j, n as int);
    assert(number_at(b, j, 4) == MetaV::Int(n as i64));
    lemma_dims(b, j + 4, dims, n);
    let l = j + 4 + 8 * n;
    law_numbers_are_read(b, l, t as int);
    assert(number_at(b, l, 4) == MetaV::Int(t as i64));
    law_numbers_are_read(b, l + 4, offset);
    assert(number_at(b, l + 4, 12) == MetaV::Float(offset as u64));
    assert(le32(b, j) == n && le32(b, l) == t && le64(b, l + 4) == offset);
}

proof fn lemma_counts(b: Seq<u8>, i: int, n: nat)
    ensures
        entries_at(b, i, n) matches Ok(r) ==> r.0.len() == n,
        tensors_at(b, i, n) matches Ok(r) ==> r.0.len() == n,
    decreases n,
{
    if n > 0 {
        lemma_counts(b, i, (n - 1) as nat);
    }
}

/// A file that is read begins with its magic, has version 2 or 3, and holds as many tensors and
/// entries as its header counts, tensors first.
pub proof fn law_headers_are_read(b: Seq<u8>, version: int, tensors: int, entries: int)
    requires
        24 <= b.len() <= usize::MAX,
        0 <= version <= u32::MAX,
        0 <= tensors <= usize::MAX,
        0 <= entries <= usize::MAX,
        written(b, 4, version, 4),
        written(b, 8, tensors, 8),
        written(b, 16, entries, 8),
    ensures
        parsed(b) matches Ok(g) ==> b[0] == 'G' as u8 && b[1] == 'G' as u8 && b[2] == 'U' as u8 && b[3] == 'F' as u8 && (
        version == 2 || version == 3) && g.tensors.len() == tensors && g.meta.len() == entries && g.data % alignment(g.meta)
            == 0 && g.data <= b.len(),
        has_magic(b) && version != 2 && version != 3 ==> parsed(b) is Err,
{
    law_numbers_are_read(b, 4, version);
    law_numbers_are_read(b, 8, tensors);
    law_numbers_are_read(b, 16, entries);
    assert(number_at(b, 4, 4) == MetaV::Int(version as i64));
    assert(number_at(b, 8, 12) == MetaV::Float(tensors as u64));
    assert(number_at(b, 16, 12) == MetaV::Float(entries as u64));
    if parsed(b) is Ok {
        lemma_counts(b, 24, entries as nat);
        let r = entries_at(b, 24, entries as nat)->Ok_0;
        lemma_counts(b, r.1, tensors as nat);
        lemma_reading_on(b, 24, entries as nat);
        lemma_reading_on(b, r.1, tensors as nat);
        let end = tensors_at(b, r.1, tensors as nat)->Ok_0.1;
        law_data_is_aligned(end, alignment(r.0), end);
    }
}

proof fn lemma_list_on(b: Seq<u8>, i: int, kind: u32, n: nat)
    requires
        0 <= i,
    ensures
        scalars_at(b, i, kind, n) matches Ok(r) ==> r.1 >= 0,
    decreases n,
{
    if n > 0 {
        lemma_list_on(b, i, kind, (n - 1) as nat);
    }
}

proof fn lemma_dims_on(b: Seq<u8>, i: int, n: nat)
    requires
        0 <= i,
    ensures
        dims_at(b, i, n) matches Ok(r) ==> r.1 >= 0,
    decreases n,
{
    if n > 0 {
        lemma_dims_on(b, i, (n - 1) as nat);
    }
}

/// Reading goes on from inside the file.
proof fn lemma_reading_on(b: Seq<u8>, i: int, n: nat)
    requires
        0 <= i,
    ensures
        entries_at(b, i, n) matches Ok(r) ==> r.1 >= 0,
        tensors_at(b, i, n) matches Ok(r) ==> r.1 >= 0,
    decreases n,
{
    if n > 0 {
        lemma_reading_on(b, i, (n - 1) as nat);
        if entries_at(b, i, (n - 1) as nat) is Ok {
            let j = entries_at(b, i, (n - 1) as nat)->Ok_0.1;
            if string_at(b, j) is Ok {
                let k = string_at(b, j)->Ok_0.1;
                if u32_at(b, k + 4) is Ok && u64_at(b, k + 8) is Ok {
                    lemma_list_on(b, k + 16, le32(b, k + 4), le64(b, k + 8) as usize as nat);
                }
            }
        }
        if tensors_at(b, i, (n - 1) as nat) is Ok {
            let j = tensors_at(b, i, (n - 1) as nat)->Ok_0.1;
            if string_at(b, j) is Ok {
                let k = string_at(b, j)->Ok_0.1;
                lemma_dims_on(b, k + 4, le32(b, k) as nat);
            }
        }
    }
}

/// What a file says of its vocabulary, as a `tokenizer.json` has it: each token under its own
/// number, or its last one where it comes more than once, and no other.
pub proof fn law_vocabulary_is_carried_over(tokens: Seq<Seq<char>>, i: int)
    requires
        0 <= i < tokens.len() <= u64::MAX,
    ensures
        numbered(tokens, tokens.len()).contains((tokens[i], JsonV::Num(NumberV::Pos(i as u64)))) <==> (forall|j: int|
            i < j < tokens.len() ==> #[trigger] tokens[j] != tokens[i]),
        forall|k: int|
            0 <= k < numbered(tokens, tokens.len()).len() ==> exists|j: int|
                0 <= j < tokens.len() && #[trigger] numbered(tokens, tokens.len())[k] == (
                    #[trigger] tokens[j],
                    JsonV::Num(NumberV::Pos(j as u64)),
                ),
{
    lemma_numbered(tokens, tokens.len());
}

proof fn lemma_numbered(tokens: Seq<Seq<char>>, n: nat)
    requires
        n <= tokens.len() <= u64::MAX,
    ensures
        forall|i: int|
            0 <= i < n ==> (numbered(tokens, n).contains((#[trigger] tokens[i], JsonV::Num(NumberV::Pos(i as u64))))
                <==> !repeated(tokens, i)),
        forall|k: int|
            0 <= k < numbered(tokens, n).len() ==> exists|j: int|
                0 <= j < n && #[trigger] numbered(tokens, n)[k] == (
                    #[trigger] tokens[j],
                    JsonV::Num(NumberV::Pos(j as u64)),
                ),
    decreases n,
{
    if n > 0 {
        let m = (n - 1) as nat;
        lemma_numbered(tokens, m);
        let before = numbered(tokens, m);
        let after = numbered(tokens, n);
        assert forall|k: int| 0 <= k < after.len() implies exists|j: int|
            0 <= j < n && #[trigger] after[k] == (#[trigger] tokens[j], JsonV::Num(NumberV::Pos(j as u64))) by {
            if k < before.len() {
                assert(after[k] == before[k]);
                let j = choose|j: int|
                    0 <= j < m && #[trigger] before[k] == (#[trigger] tokens[j], JsonV::Num(NumberV::Pos(j as u64)));
                assert(after[k] == (tokens[j], JsonV::Num(NumberV::Pos(j as u64))));
            } else {
                assert(after[k] == (tokens[m as int], JsonV::Num(NumberV::Pos(m as u64))));
            }
        }
        assert forall|i: int| 0 <= i < n implies (after.contains(
            (#[trigger] tokens[i], JsonV::Num(NumberV::Pos(i as u64))),
        ) <==> !repeated(tokens, i)) by {
            let e = (tokens[i], JsonV::Num(NumberV::Pos(i as u64)));
            if i < m {
                if before.contains(e) {
                    let k = choose|k: int| 0 <= k < before.len() && before[k] == e;
                    assert(after[k] == e);
                }
                if after.contains(e) {
                    let k = choose|k: int| 0 <= k < after.len() && after[k] == e;
                    if k < before.len() {
                        assert(before[k] == e);
                    }
                }
            } else {
                if !repeated(tokens, i) {
                    assert(after[before.len() as int] == e);
                }
                if after.contains(e) && repeated(tokens, i) {
                    let k = choose|k: int| 0 <= k < before.len() && before[k] == e;
                    let j = choose|j: int|
                        0 <= j < m && #[trigger] before[k] == (#[trigger] tokens[j], JsonV::Num(NumberV::Pos(j as u64)));
                    assert(j == i);
                }
            }
        }
    }
}

/// The control tokens of a file are those of type 3: they are added under their number, as
/// special ones, and no others are.
pub proof fn law_control_tokens_are_carried_over(tokens: Seq<Seq<char>>, types: Seq<i64>, i: int)
    requires
        0 <= i < tokens.len() <= u64::MAX,
    ensures
        controls(tokens, types, tokens.len()).contains(
            JsonV::Obj(
                seq![
                    ("id"@, JsonV::Num(NumberV::Pos(i as u64))),
                    ("content"@, JsonV::Str(tokens[i])),
                    ("special"@, JsonV::Bool(true)),
                ],
            ),
        ) <==> i < types.len() && types[i] == 3,
        forall|k: int|
            0 <= k < controls(tokens, types, tokens.len()).len() ==> exists|j: int|
                0 <= j < tokens.len() && j < types.len() && #[trigger] types[j] == 3
                    && #[trigger] controls(tokens, types, tokens.len())[k] == control(tokens[j], j as u64),
{
    lemma_controls(tokens, types, tokens.len());
    let s = controls(tokens, types, tokens.len());
    let e = control(tokens[i], i as u64);
    if s.contains(e) {
        let k = choose|k: int| 0 <= k < s.len() && s[k] == e;
        let j = choose|j: int|
            0 <= j < tokens.len() && j < types.len() && #[trigger] types[j] == 3 && #[trigger] s[k] == control(
                tokens[j],
                j as u64,
            );
        assert(e->Obj_0[0].1 == JsonV::Num(NumberV::Pos(j as u64)));
        assert(e->Obj_0[0].1 == JsonV::Num(NumberV::Pos(i as u64)));
    }
}

proof fn lemma_controls(tokens: Seq<Seq<char>>, types: Seq<i64>, n: nat)
    requires
        n <= tokens.len() <= u64::MAX,
    ensures
        forall|i: int|
            0 <= i < n && i < types.len() && types[i] == 3 ==> controls(tokens, types, n).contains(
                control(#[trigger] tokens[i], i as u64),
            ),
        forall|k: int|
            0 <= k < controls(tokens, types, n).len() ==> exists|j: int|
                0 <= j < n && j < types.len() && #[trigger] types[j] == 3 && #[trigger] controls(tokens, types, n)[k]
                    == control(tokens[j], j as u64),
    decreases n,
{
    if n > 0 {
        let m = (n - 1) as nat;
        lemma_controls(tokens, types, m);
        let before = controls(tokens, types, m);
        let after = controls(tokens, types, n);
        assert forall|k: int| 0 <= k < after.len() implies exists|j: int|
            0 <= j < n && j < types.len() && #[trigger] types[j] == 3 && #[trigger] after[k] == control(
                tokens[j],
                j as u64,
            ) by {
            if k < before.len() {
                assert(after[k] == before[k]);
                let j = choose|j: int|
                    0 <= j < m && j < types.len() && #[trigger] types[j] == 3 && #[trigger] before[k] == control(
                        tokens[j],
                        j as u64,
                    );
                assert(types[j] == 3 && after[k] == control(tokens[j], j as u64));
            } else {
                assert(types[m as int] == 3);
            }
        }
        assert forall|i: int| 0 <= i < n && i < types.len() && types[i] == 3 implies after.contains(
            control(#[trigger] tokens[i], i as u64),
        ) by {
            let e = control(tokens[i], i as u64);
            if i < m {
                let k = choose|k: int| 0 <= k < before.len() && before[k] == e;
                assert(after[k] == e);
            } else {
                assert(after[before.len() as int] == e);
            }
        }
    }
}

/// A file with tokens and merges gets a tokenizer with that vocabulary and those merges, cut
/// by metaspace where the vocabulary is `llama` or `spm` and by bytes where it is another; one
/// without merges gets one only where the vocabulary is by bytes.
pub proof fn law_tokenizer_is_carried_over(
    g: GgufV,
    tokens: Seq<Seq<char>>,
    merges: Seq<Seq<char>>,
    types: Seq<i64>,
    kind: Seq<char>,
)
    requires
        g.get("tokenizer.ggml.tokens"@) == Some(MetaV::Strs(tokens)),
        g.get("tokenizer.ggml.merges"@) == Some(MetaV::Strs(merges)),
        g.get("tokenizer.ggml.model"@) == Some(MetaV::Str(kind)),
    ensures
        g.tokenizer() is None <==> merges.len() == 0 && kind != "gpt2"@,
        g.tokenizer() matches Some(j) ==> {
            &&& j.field("model"@).field("type"@) == JsonV::Str("BPE"@)
            &&& j.field("model"@).field("vocab"@) == JsonV::Obj(numbered(tokens, tokens.len()))
            &&& j.field("model"@).field("merges"@) == JsonV::Arr(Seq::new(merges.len(), |i: int| JsonV::Str(merges[i])))
            &&& kind == "llama"@ || kind == "spm"@ ==> j.field("pre_tokenizer"@).field("type"@) == JsonV::Str("Metaspace"@)
                && j.field("pre_tokenizer"@).field("replacement"@) == JsonV::Str("\u{2581}"@) && j.field("decoder"@).field(
                "type"@,
            ) == JsonV::Str("Metaspace"@)
            &&& kind != "llama"@ && kind != "spm"@ ==> j.field("pre_tokenizer"@).field("type"@) == JsonV::Str("ByteLevel"@)
                && j.field("decoder"@).field("type"@) == JsonV::Str("ByteLevel"@)
            &&& g.get("tokenizer.ggml.token_type"@) == Some(MetaV::Ints(types)) ==> j.field("added_tokens"@) == JsonV::Arr(
                controls(tokens, types, tokens.len()),
            )
        },
{
    reveal_strlit("model");
    reveal_strlit("added_tokens");
    reveal_strlit("pre_tokenizer");
    reveal_strlit("decoder");
    reveal_strlit("type");
    reveal_strlit("vocab");
    reveal_strlit("merges");
    reveal_strlit("replacement");
    assert("model"@.len() == 5 && "model"@[0] == 'm');
    assert("added_tokens"@.len() == 12);
    assert("pre_tokenizer"@.len() == 13);
    assert("decoder"@.len() == 7);
    assert("type"@.len() == 4);
    assert("vocab"@.len() == 5 && "vocab"@[0] == 'v');
    assert("merges"@.len() == 6);
    assert("replacement"@.len() == 11);
    reveal_with_fuel(entry_from, 5);
    if g.tokenizer() is Some {
        let j = g.tokenizer()->0;
        assert(strings(merges) == Seq::new(merges.len(), |i: int| JsonV::Str(merges[i])));
        assert(j.field("model"@) == j->Obj_0[0].1);
        assert(j.field("added_tokens"@) == j->Obj_0[1].1);
        assert(j.field("pre_tokenizer"@) == g.pretokenizer());
        assert(j.field("decoder"@) == g.decoder());
    }
}

} // verus!
