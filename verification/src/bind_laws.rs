//! Which tensor plays which part: the names under which the weights of a model are found.

use vstd::prelude::*;
use crate::bind::{
    attention_of, bound_of, expert_of, experts_of, ffn_of, layer_of, layers_of, packing_of, AttnV, FfnV, LayerV,
    LoadFaultV, MlpV, Packing, Slot,
};
use crate::spec::{Mla, SpecV};
use crate::store::Store;
use crate::text::decimal_of;

verus! {

/// Whether a part is a whole tensor: all rows of all its slabs.
pub open spec fn is_all(x: Slot, s: Store, name: Seq<char>) -> bool {
    &&& x.name == name
    &&& x.slab == 0
    &&& x.start == 0
    &&& x.end == s.model().index[name].slabs * s.model().index[name].rows
}

/// Whether an optional part is a whole tensor, where that can be read, and else nothing.
pub open spec fn is_all_if(x: Option<Slot>, s: Store, name: Seq<char>) -> bool {
    if s.readable(name) {
        x is Some && is_all(x->0, s, name)
    } else {
        x is None
    }
}

/// Plain attention takes each weight from the tensor of its name: queries from the query's, keys
/// from the key's, values from the value's and the output from the output's, with their biases and
/// norms where there are any; without one of the four it is not bound.
pub proof fn law_attention_is_bound(s: Store, p: Seq<char>)
    ensures
        match attention_of(s, p, None) {
            Ok(AttnV::Gqa { q, k, v, o, bias, q_norm, k_norm }) => {
                &&& is_all(q, s, p + "self_attn.q_proj.weight"@)
                &&& is_all(k, s, p + "self_attn.k_proj.weight"@)
                &&& is_all(v, s, p + "self_attn.v_proj.weight"@)
                &&& is_all(o, s, p + "self_attn.o_proj.weight"@)
                &&& is_all_if(bias.0, s, p + "self_attn.q_proj.bias"@)
                &&& is_all_if(bias.1, s, p + "self_attn.k_proj.bias"@)
                &&& is_all_if(bias.2, s, p + "self_attn.v_proj.bias"@)
                &&& is_all_if(q_norm, s, p + "self_attn.q_norm.weight"@)
                &&& is_all_if(k_norm, s, p + "self_attn.k_norm.weight"@)
            },
            Ok(_) => false,
            Err(_) => !(s.readable(p + "self_attn.q_proj.weight"@) && s.readable(p + "self_attn.k_proj.weight"@) && s.readable(
                p + "self_attn.v_proj.weight"@,
            ) && s.readable(p + "self_attn.o_proj.weight"@)),
        },
{
}

/// Latent attention takes each weight from the tensor of its name; a query without a compressed form
/// is taken whole.
pub proof fn law_latent_attention_is_bound(s: Store, p: Seq<char>, m: Mla)
    ensures
        match attention_of(s, p, Some(m)) {
            Ok(AttnV::Mla { dims, q_a, q_a_norm, q_b, kv_a, kv_a_norm, kv_b, out }) => {
                &&& dims == m
                &&& is_all_if(q_a, s, p + "self_attn.q_a_proj.weight"@)
                &&& is_all_if(q_a_norm, s, p + "self_attn.q_a_layernorm.weight"@)
                &&& s.readable(p + "self_attn.q_b_proj.weight"@) ==> is_all(q_b, s, p + "self_attn.q_b_proj.weight"@)
                &&& !s.readable(p + "self_attn.q_b_proj.weight"@) ==> is_all(q_b, s, p + "self_attn.q_proj.weight"@)
                &&& is_all(kv_a, s, p + "self_attn.kv_a_proj_with_mqa.weight"@)
                &&& is_all(kv_a_norm, s, p + "self_attn.kv_a_layernorm.weight"@)
                &&& is_all(kv_b, s, p + "self_attn.kv_b_proj.weight"@)
                &&& is_all(out, s, p + "self_attn.o_proj.weight"@)
            },
            Ok(_) => false,
            Err(_) => true,
        },
{
}

/// An expert that has tensors of its own takes its three projections from them.
pub proof fn law_single_experts_are_bound(s: Store, p: Seq<char>, e: nat)
    ensures
        expert_of(s, p, Packing::Single, e as int) matches Ok(m) ==> {
            let a = p + ("mlp.experts."@ + decimal_of(e) + "."@ + ("gate_proj"@ + ".weight"@));
            let b = p + ("mlp.experts."@ + decimal_of(e) + "."@ + ("up_proj"@ + ".weight"@));
            let c = p + ("mlp.experts."@ + decimal_of(e) + "."@ + ("down_proj"@ + ".weight"@));
            let w1 = p + ("block_sparse_moe.experts."@ + decimal_of(e) + "."@ + ("w1"@ + ".weight"@));
            let w3 = p + ("block_sparse_moe.experts."@ + decimal_of(e) + "."@ + ("w3"@ + ".weight"@));
            let w2 = p + ("block_sparse_moe.experts."@ + decimal_of(e) + "."@ + ("w2"@ + ".weight"@));
            &&& if s.readable(a) { is_all(m.gate, s, a) } else { is_all(m.gate, s, w1) }
            &&& if s.readable(b) { is_all(m.up, s, b) } else { is_all(m.up, s, w3) }
            &&& if s.readable(c) { is_all(m.down, s, c) } else { is_all(m.down, s, w2) }
        },
{
}

/// An expert of stacks takes its slab of each; of a fused stack the first half of its slab's rows
/// gates, and the second half goes up.
pub proof fn law_stacked_experts_are_bound(s: Store, p: Seq<char>, e: nat, rows: usize)
    ensures
        expert_of(s, p, Packing::Stacked, e as int) matches Ok(m) ==> {
            &&& m.gate.name == p + ("mlp.experts."@ + "gate_proj"@) && m.gate.slab == e && m.gate.start == 0 && m.gate.end
                == s.model().index[m.gate.name].rows
            &&& m.up.name == p + ("mlp.experts."@ + "up_proj"@) && m.up.slab == e && m.up.start == 0 && m.up.end
                == s.model().index[m.up.name].rows
            &&& m.down.name == p + ("mlp.experts."@ + "down_proj"@) && m.down.slab == e && m.down.start == 0 && m.down.end
                == s.model().index[m.down.name].rows
        },
        expert_of(s, p, Packing::Fused(rows), e as int) matches Ok(m) ==> rows % 2 == 0 ==> {
            &&& m.gate.name == p + "mlp.experts.gate_up_proj"@ && m.up.name == m.gate.name
            &&& m.gate.slab == e && m.up.slab == e && m.down.slab == e
            &&& m.gate.start == 0 && m.gate.end == m.up.start && m.up.end == rows && m.gate.end - m.gate.start == m.up.end
                - m.up.start
            &&& m.down.name == p + "mlp.experts.down_proj"@ && m.down.start == 0 && m.down.end
                == s.model().index[m.down.name].rows
        },
{
}

/// How a layer stores its experts: fused where it has a stack of gate and up together, stacked where
/// all three projections are stacks of more than one, and else singly.
pub proof fn law_packing_is_told(s: Store, p: Seq<char>)
    ensures
        s.model().index.dom().contains(p + "mlp.experts.gate_up_proj"@) ==> packing_of(s.model(), p) == Packing::Fused(
            s.model().index[p + "mlp.experts.gate_up_proj"@].rows,
        ),
        !s.model().index.dom().contains(p + "mlp.experts.gate_up_proj"@) ==> {
            let a = p + ("mlp.experts."@ + "gate_proj"@);
            let b = p + ("mlp.experts."@ + "up_proj"@);
            let c = p + ("mlp.experts."@ + "down_proj"@);
            let t = s.model().index;
            packing_of(s.model(), p) == (if t.dom().contains(a) && t[a].slabs > 1 && t.dom().contains(b) && t[b].slabs > 1
                && t.dom().contains(c) && t[c].slabs > 1 {
                Packing::Stacked
            } else {
                Packing::Single
            })
        },
{
}

/// A routed layer has its experts in order, each bound as its packing has it, the router from its
/// name, and the shared expert with its gate where there is one.
pub proof fn law_routed_layers_are_bound(s: Store, p: Seq<char>, experts: usize, l: int, e: int)
    ensures
        ffn_of(s, p, experts, l) matches Ok(FfnV::Moe { router, e_bias, experts: v, shared, shared_gate }) ==> {
            &&& v.len() == experts
            &&& 0 <= e < experts ==> expert_of(s, p, packing_of(s.model(), p), e) == Ok::<MlpV, LoadFaultV>(v[e])
            &&& if s.readable(p + "mlp.gate.weight"@) {
                is_all(router, s, p + "mlp.gate.weight"@)
            } else {
                is_all(router, s, p + "block_sparse_moe.gate.weight"@)
            }
            &&& is_all_if(e_bias, s, p + "mlp.gate.e_score_correction_bias"@)
            &&& is_all_if(shared_gate, s, p + "mlp.shared_expert_gate.weight"@)
            &&& s.readable(p + ("mlp.shared_expert."@ + "gate_proj"@ + ".weight"@)) ==> shared is Some && is_all(
                shared->0.gate,
                s,
                p + ("mlp.shared_expert."@ + "gate_proj"@ + ".weight"@),
            )
            &&& shared is Some && s.readable(p + ("mlp.shared_expert."@ + "up_proj"@ + ".weight"@)) ==> is_all(
                shared->0.up,
                s,
                p + ("mlp.shared_expert."@ + "up_proj"@ + ".weight"@),
            )
            &&& shared is Some && s.readable(p + ("mlp.shared_expert."@ + "down_proj"@ + ".weight"@)) ==> is_all(
                shared->0.down,
                s,
                p + ("mlp.shared_expert."@ + "down_proj"@ + ".weight"@),
            )
            &&& !s.readable(p + ("mlp.shared_expert."@ + "gate_proj"@ + ".weight"@)) && !s.readable(
                p + ("mlp.shared_experts."@ + "gate_proj"@ + ".weight"@),
            ) ==> shared is None
        },
        experts == 0 ==> !(ffn_of(s, p, experts, l) matches Ok(FfnV::Moe { .. })),
{
    if ffn_of(s, p, experts, l) is Ok && ffn_of(s, p, experts, l)->Ok_0 is Moe {
        lemma_experts(s, p, packing_of(s.model(), p), experts as nat, e);
    }
}

proof fn lemma_experts(s: Store, p: Seq<char>, k: Packing, n: nat, e: int)
    requires
        experts_of(s, p, k, n) is Ok,
    ensures
        experts_of(s, p, k, n)->Ok_0.len() == n,
        0 <= e < n ==> expert_of(s, p, k, e) == Ok::<MlpV, LoadFaultV>(experts_of(s, p, k, n)->Ok_0[e]),
    decreases n,
{
    if n > 0 {
        lemma_experts(s, p, k, (n - 1) as nat, e);
    }
}

/// A dense layer takes its three projections from the tensors of their names.
pub proof fn law_dense_layers_are_bound(s: Store, p: Seq<char>, experts: usize, l: int)
    ensures
        ffn_of(s, p, experts, l) matches Ok(FfnV::Dense(m)) ==> {
            &&& if s.readable(p + "mlp.gate_proj.weight"@) {
                is_all(m.gate, s, p + "mlp.gate_proj.weight"@)
            } else {
                is_all(m.gate, s, p + "mlp.w1.weight"@)
            }
            &&& if s.readable(p + "mlp.up_proj.weight"@) {
                is_all(m.up, s, p + "mlp.up_proj.weight"@)
            } else {
                is_all(m.up, s, p + "mlp.w3.weight"@)
            }
            &&& if s.readable(p + "mlp.down_proj.weight"@) {
                is_all(m.down, s, p + "mlp.down_proj.weight"@)
            } else {
                is_all(m.down, s, p + "mlp.w2.weight"@)
            }
        },
{
}

/// A layer's two norms: the one before attention and the one behind it.
pub proof fn law_norms_are_bound(s: Store, m: SpecV, l: nat)
    ensures
        layer_of(s, m, l as int) matches Ok(x) ==> {
            let p = m.prefix + decimal_of(l) + "."@ + ""@;
            &&& if s.readable(p + "input_layernorm.weight"@) {
                is_all(x.ln1, s, p + "input_layernorm.weight"@)
            } else {
                is_all(x.ln1, s, p + "ln1.weight"@)
            }
            &&& if s.readable(p + "post_attention_layernorm.weight"@) {
                is_all(x.ln2, s, p + "post_attention_layernorm.weight"@)
            } else {
                is_all(x.ln2, s, p + "ln2.weight"@)
            }
            &&& attention_of(s, p, m.mla) == Ok::<AttnV, LoadFaultV>(x.attn)
            &&& ffn_of(s, p, m.experts, l as int) == Ok::<FfnV, LoadFaultV>(x.ffn)
        },
{
}

/// A model has its layers in order, its embedding and final norm under one of their names, and its
/// output head, which is the embedding where there is no other.
pub proof fn law_models_are_bound(s: Store, m: SpecV, l: int)
    ensures
        bound_of(s, m) matches Ok(b) ==> {
            &&& b.layers.len() == m.layers
            &&& 0 <= l < m.layers ==> layer_of(s, m, l) == Ok::<LayerV, LoadFaultV>(b.layers[l])
            &&& s.readable("model.embed_tokens.weight"@) ==> is_all(b.embed, s, "model.embed_tokens.weight"@)
            &&& s.readable("model.norm.weight"@) ==> is_all(b.out_norm, s, "model.norm.weight"@)
            &&& s.readable("lm_head.weight"@) ==> is_all(b.lm_head, s, "lm_head.weight"@)
            &&& !s.readable("lm_head.weight"@) && s.readable("output.weight"@) ==> is_all(b.lm_head, s, "output.weight"@)
            &&& !s.readable("lm_head.weight"@) && !s.readable("output.weight"@) ==> b.lm_head == b.embed
            &&& !s.readable("model.embed_tokens.weight"@) && s.readable("embed_tokens.weight"@) ==> is_all(
                b.embed,
                s,
                "embed_tokens.weight"@,
            )
            &&& !s.readable("model.norm.weight"@) && s.readable("norm.weight"@) ==> is_all(b.out_norm, s, "norm.weight"@)
        },
{
    if bound_of(s, m) is Ok {
        lemma_layers(s, m, m.layers as nat, l);
    }
}

proof fn lemma_layers(s: Store, m: SpecV, n: nat, l: int)
    requires
        layers_of(s, m, n) is Ok,
    ensures
        layers_of(s, m, n)->Ok_0.len() == n,
        0 <= l < n ==> layer_of(s, m, l) == Ok::<LayerV, LoadFaultV>(layers_of(s, m, n)->Ok_0[l]),
    decreases n,
{
    if n > 0 {
        lemma_layers(s, m, (n - 1) as nat, l);
    }
}

} // verus!
