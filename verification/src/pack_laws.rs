//! What packing does to each tensor: which format it gets, which experts stay and under which
//! number, and what the packed file says of it.

use vstd::prelude::*;
use crate::index::Rec;
use crate::json::{entry_from, JsonV, NumberV};
use crate::pack::{
    after_marker, cut, described, digits_end, ends_in, header_of, item_of, layer_from, layer_in, place_in, pruned,
    renumbered, rewritten, suffix_in, Hot, ItemV, KeptV, Order, Prune, SelectionV,
};
use crate::quant::Dt;
use crate::text::{decimal_of, first_at, has, law_decimal_reads_back, unsigned_of};

verus! {

/// Which format a tensor is written in: single rows, norms, biases and routers as plain numbers;
/// experts in the experts' format, or a finer one where they are hot; all other weights in theirs.
pub proof fn law_formats_are_given(o: Order, name: Seq<char>, r: Rec)
    ensures
        r.rows == 1 ==> o.target(name, r) == Dt::F32,
        has(name, "norm"@) ==> o.target(name, r) == Dt::F32,
        ends_in(name, ".bias"@) ==> o.target(name, r) == Dt::F32,
        ends_in(name, "gate.weight"@) ==> o.target(name, r) == Dt::F32,
        has(name, "e_score"@) ==> o.target(name, r) == Dt::F32,
        r.rows != 1 && !crate::text::has(name, "norm"@) && !ends_in(name, ".bias"@) && !ends_in(name, "gate.weight"@)
            && !crate::text::has(name, "e_score"@) ==> {
            &&& !crate::text::has(name, ".experts."@) ==> o.target(name, r) == o.weight_dt
            &&& has(name, ".experts."@) && o.hot is None ==> o.target(name, r) == o.expert_dt
            &&& has(name, ".experts."@) && o.hot is Some && o.hot->0.format_in(name) is None ==> o.target(name, r) == o.expert_dt
            &&& has(name, ".experts."@) && o.hot is Some && o.hot->0.format_in(name) is Some ==> o.target(name, r)
                == o.hot->0.format_in(name)->0
        },
{
}

/// A row that a block format cannot hold is written as plain numbers, and every other in the format
/// that was asked for.
pub proof fn law_formats_fit_their_rows(o: Order, name: Seq<char>, r: Rec, width: int)
    ensures
        o.target(name, r).divides(r.cols as int) && o.target(name, r).divides(width) ==> o.format(name, r, width) == o.target(
            name,
            r,
        ),
        !o.target(name, r).divides(r.cols as int) || !o.target(name, r).divides(width) ==> o.format(name, r, width) == Dt::F32,
{
}

/// A per-layer name as most checkpoints have it.
pub open spec fn in_layer(n: nat, suffix: Seq<char>) -> Seq<char> {
    "model.layers."@ + decimal_of(n) + "."@ + suffix
}

proof fn lemma_dot(s: Seq<char>, from: int, at: int)
    requires
        0 <= from <= at < s.len(),
        s[at] == '.',
        forall|k: int| from <= k < at ==> #[trigger] s[k] != '.',
    ensures
        first_at(s, from, "."@) == Some(at),
    decreases at - from,
{
    reveal_strlit(".");
    if from == at {
        assert(s.subrange(at, at + 1) =~= "."@);
    } else {
        assert(s.subrange(from, from + 1)[0] == s[from]);
        lemma_dot(s, from + 1, at);
    }
}

proof fn lemma_digits(s: Seq<char>, i: int, e: int)
    requires
        0 <= i <= e < s.len(),
        forall|k: int| i <= k < e ==> '0' <= #[trigger] s[k] <= '9',
        !('0' <= s[e] <= '9'),
    ensures
        digits_end(s, i) == e,
    decreases e - i,
{
    if i < e {
        assert('0' <= s[i] <= '9');
        lemma_digits(s, i + 1, e);
    }
}

/// A per-layer name tells its layer, and where its suffix begins.
pub proof fn law_layers_are_told(n: nat, suffix: Seq<char>)
    requires
        n <= usize::MAX,
    ensures
        layer_in(in_layer(n, suffix)) == Some((n, 14 + decimal_of(n).len() as int)),
        suffix_in(in_layer(n, suffix), 14 + decimal_of(n).len() as int) == suffix,
{
    reveal_strlit("model.layers.");
    reveal_strlit(".");
    law_decimal_reads_back(n);
    let d = decimal_of(n);
    let s = in_layer(n, suffix);
    let e = 13 + d.len() as int;
    assert forall|k: int| 0 <= k < 13 implies #[trigger] s[k] == "model.layers."@[k] by {}
    assert forall|k: int| 0 <= k < d.len() implies #[trigger] s[13 + k] == d[k] by {}
    assert(s[e] == '.');
    assert(s[5] == '.' && s[6] == 'l' && s[12] == '.');
    lemma_dot(s, 0, 5);
    lemma_digits(s, 6, 6);
    lemma_dot(s, 6, 12);
    assert forall|k: int| 13 <= k < e implies '0' <= #[trigger] s[k] <= '9' by {
        assert(s[13 + (k - 13)] == d[k - 13]);
    }
    lemma_digits(s, 13, e);
    assert(s.subrange(13, e) =~= d);
    reveal_with_fuel(layer_from, 3);
    assert(s.subrange(e + 1, s.len() as int) =~= suffix);
}

/// The suffix of a tensor of one expert.
pub open spec fn of_expert(e: nat, tail: Seq<char>) -> Seq<char> {
    "mlp.experts."@ + decimal_of(e) + "."@ + tail
}

proof fn lemma_of_expert(e: nat, tail: Seq<char>)
    requires
        e <= u32::MAX,
    ensures
        after_marker(of_expert(e, tail)) == Some((0int, decimal_of(e) + "."@ + tail)),
        cut(decimal_of(e) + "."@ + tail) == (decimal_of(e), tail),
        unsigned_of(decimal_of(e), u32::MAX as nat) == Some(e),
{
    reveal_strlit("mlp.experts.");
    reveal_strlit(".");
    law_decimal_reads_back(e);
    let d = decimal_of(e);
    let s = of_expert(e, tail);
    let rest = d + "."@ + tail;
    assert(s.subrange(0, 12) =~= "mlp.experts."@);
    assert(s.subrange(12, s.len() as int) =~= rest);
    assert forall|k: int| 0 <= k < d.len() implies #[trigger] rest[k] != '.' by {
        assert(rest[k] == d[k]);
    }
    assert(rest[d.len() as int] == '.');
    lemma_dot(rest, 0, d.len() as int);
    assert(rest.subrange(0, d.len() as int) =~= d);
    assert(rest.subrange(d.len() as int + 1, rest.len() as int) =~= tail);
    assert(d[0] != '+');
}

/// A tensor of an expert that is not kept is dropped, and one that is kept is renamed to its place
/// among the kept, and to nothing else.
pub proof fn law_experts_are_renumbered(keep: Seq<u32>, n: nat, e: u32, tail: Seq<char>, new: int)
    requires
        n <= usize::MAX,
    ensures
        !keep.contains(e) ==> renumbered(keep, in_layer(n, of_expert(e as nat, tail)), 14 + decimal_of(n).len() as int)
            == SelectionV::Drop,
        0 <= new < keep.len() && keep[new] == e && (forall|k: int| 0 <= k < new ==> #[trigger] keep[k] != e) ==> renumbered(
            keep,
            in_layer(n, of_expert(e as nat, tail)),
            14 + decimal_of(n).len() as int,
        ) == SelectionV::Keep(KeptV { name: in_layer(n, of_expert(new as nat, tail)), rows: None, cols: None, slabs: None }),
{
    let name = in_layer(n, of_expert(e as nat, tail));
    let from = 14 + decimal_of(n).len() as int;
    law_layers_are_told(n, of_expert(e as nat, tail));
    lemma_of_expert(e as nat, tail);
    crate::pack::law_router_follows_experts(keep, e);
    if 0 <= new < keep.len() && keep[new] == e && (forall|k: int| 0 <= k < new ==> #[trigger] keep[k] != e) {
        lemma_place(keep, e, 0, new);
        reveal_strlit("mlp.experts.");
        reveal_strlit("model.layers.");
        reveal_strlit(".");
        let renamed = name.subrange(0, from) + "mlp.experts."@ + (decimal_of(new as nat) + "."@ + tail);
        assert(name.subrange(0, from) =~= "model.layers."@ + decimal_of(n) + "."@);
        assert(renamed =~= in_layer(n, of_expert(new as nat, tail)));
    }
}

proof fn lemma_place(keep: Seq<u32>, e: u32, from: int, new: int)
    requires
        0 <= from <= new < keep.len(),
        keep[new] == e,
        forall|k: int| 0 <= k < new ==> #[trigger] keep[k] != e,
    ensures
        place_in(keep, e, from) == Some(new),
    decreases new - from,
{
    if from < new {
        assert(keep[from] != e);
        lemma_place(keep, e, from + 1, new);
    }
}

/// A hot expert's tensors get the finer format, and no other's do.
pub proof fn law_hot_experts_are_finer(hot: Hot, n: u32, e: u32, tail: Seq<char>)
    ensures
        hot.experts@.contains((n, e)) ==> hot.format_in(in_layer(n as nat, of_expert(e as nat, tail))) == Some(hot.dt),
        !hot.experts@.contains((n, e)) ==> hot.format_in(in_layer(n as nat, of_expert(e as nat, tail))) is None,
{
    law_layers_are_told(n as nat, of_expert(e as nat, tail));
    lemma_of_expert(e as nat, tail);
}

/// The router of a pruned layer keeps the rows of the kept experts, in their new order; its bias
/// keeps their columns; a stack of experts keeps their slabs.
pub proof fn law_routers_are_narrowed(keep: Seq<u32>, name: Seq<char>, from: int, r: Rec, i: int)
    requires
        forall|k: int| 0 <= k < keep.len() ==> #[trigger] keep[k] < r.slabs * r.rows && keep[k] < r.cols,
        0 <= i < keep.len(),
    ensures
        suffix_in(name, from) == "mlp.gate.weight"@ || suffix_in(name, from) == "block_sparse_moe.gate.weight"@ ==> (pruned(
            keep,
            name,
            from,
            r,
        ) matches Ok(SelectionV::Keep(k)) && k.name == name && k.cols is None && k.slabs is None && k.rows is Some && k.rows->0.len()
            == keep.len() && k.rows->0[i] == keep[i]),
        suffix_in(name, from) == "mlp.gate.e_score_correction_bias"@ ==> (pruned(keep, name, from, r) matches Ok(
            SelectionV::Keep(k),
        ) && k.name == name && k.rows is None && k.slabs is None && k.cols is Some && k.cols->0.len() == keep.len()
            && k.cols->0[i] == keep[i]),
{
    let s = suffix_in(name, from);
    reveal_strlit("mlp.gate.weight");
    reveal_strlit("block_sparse_moe.gate.weight");
    reveal_strlit("mlp.gate.e_score_correction_bias");
    reveal_strlit("e_score_correction_bias");
    lemma_none_beyond(keep, r.slabs * r.rows, 0);
    lemma_none_beyond(keep, r.cols as int, 0);
    assert(s.subrange(s.len() - s.len(), s.len() as int) =~= s);
    if s == "mlp.gate.e_score_correction_bias"@ {
        assert(s[31] == 's');
        if ends_in(s, "mlp.gate.weight"@) {
            assert(s.subrange(17, 32)[14] == s[31]);
        }
        if ends_in(s, "block_sparse_moe.gate.weight"@) {
            assert(s.subrange(4, 32)[27] == s[31]);
        }
        let a = s.subrange(0, 9);
        assert(s =~= a + "e_score_correction_bias"@ + Seq::empty());
        crate::split_laws::law_has_is_found(s, a, "e_score_correction_bias"@, Seq::empty());
    }
}

proof fn lemma_none_beyond(keep: Seq<u32>, n: int, from: int)
    requires
        0 <= from,
        forall|k: int| 0 <= k < keep.len() ==> #[trigger] keep[k] < n,
    ensures
        crate::pack::beyond(keep, n, from) is None,
    decreases keep.len() - from,
{
    if from < keep.len() {
        assert(keep[from] < n);
        lemma_none_beyond(keep, n, from + 1);
    }
}

/// Only layers that are pruned change: a tensor of another layer, or of none, is kept as it is.
pub proof fn law_other_tensors_are_kept(p: Prune, name: Seq<char>, r: Rec)
    requires
        layer_in(name) matches Some(l) ==> p.kept_in(l.0) is None,
    ensures
        p.selected(name, r) == Ok::<SelectionV, u32>(
            SelectionV::Keep(KeptV { name, rows: None, cols: None, slabs: None }),
        ),
{
}

/// What a pruned model's config says: as many experts as the widest layer keeps, no more for a token
/// than that, one group, and everything else as before.
pub proof fn law_configs_are_rewritten(key: Seq<char>, v: JsonV, width: int, top_k: int)
    requires
        0 < width <= u64::MAX,
        0 <= top_k <= u64::MAX,
    ensures
        rewritten("num_experts"@, v, width, top_k) == JsonV::Num(NumberV::Pos(width as u64)),
        rewritten("n_routed_experts"@, v, width, top_k) == JsonV::Num(NumberV::Pos(width as u64)),
        rewritten("num_local_experts"@, v, width, top_k) == JsonV::Num(NumberV::Pos(width as u64)),
        rewritten("moe_num_experts"@, v, width, top_k) == JsonV::Num(NumberV::Pos(width as u64)),
        rewritten("num_experts_per_tok"@, v, width, top_k) == JsonV::Num(NumberV::Pos(if top_k <= width { top_k as u64 } else { width as u64 })),
        rewritten("moe_top_k"@, v, width, top_k) == JsonV::Num(NumberV::Pos(if top_k <= width { top_k as u64 } else { width as u64 })),
        rewritten("n_group"@, v, width, top_k) == JsonV::Num(NumberV::Pos(1)),
        rewritten("topk_group"@, v, width, top_k) == JsonV::Num(NumberV::Pos(1)),
        key != "num_experts"@ && key != "n_routed_experts"@ && key != "num_local_experts"@ && key != "moe_num_experts"@ && key != "num_experts_per_tok"@ && key != "moe_top_k"@ && key != "n_group"@ && key != "topk_group"@ ==> rewritten(key, v, width, top_k) == v,
{
    reveal_strlit("num_experts");
    reveal_strlit("n_routed_experts");
    reveal_strlit("num_local_experts");
    reveal_strlit("moe_num_experts");
    reveal_strlit("num_experts_per_tok");
    reveal_strlit("moe_top_k");
    reveal_strlit("n_group");
    reveal_strlit("topk_group");
    assert("num_experts"@.len() == 11);
    assert("n_routed_experts"@.len() == 16);
    assert("num_local_experts"@.len() == 17);
    assert("moe_num_experts"@.len() == 15);
    assert("num_experts_per_tok"@.len() == 19);
    assert("moe_top_k"@.len() == 9);
    assert("n_group"@.len() == 7);
    assert("topk_group"@.len() == 10);
}

/// Tables that the engine computes are left out; every other tensor that is kept whole is written
/// under its own name, behind what was written before, with its own shape.
pub proof fn law_tensors_are_written(o: Order, name: Seq<char>, r: Rec, off: int)
    requires
        o.prune is None,
        0 <= off,
        0 < r.slabs,
        r.slabs * r.rows <= usize::MAX,
    ensures
        has(name, "rotary_emb"@) || ends_in(name, ".inv_freq"@) ==> item_of(o, name, r, off) matches Ok(None),
        !crate::text::has(name, "rotary_emb"@) && !ends_in(name, ".inv_freq"@) ==> (item_of(o, name, r, off) matches Ok(i) ==> {
            &&& i is Some
            &&& i->0.dest == name && i->0.src == name && i->0.rows is None && i->0.cols is None && i->0.off == off
            &&& i->0.dt == o.format(name, r, r.cols as int)
            &&& i->0.len == r.slabs * r.rows * i->0.dt.row_size(r.cols as int)
            &&& r.slabs > 1 ==> i->0.shape == seq![r.slabs, r.rows, r.cols]
            &&& r.slabs == 1 ==> i->0.shape == seq![r.rows, r.cols]
        }),
{
    assert(r.slabs == 1 ==> r.slabs * r.rows == r.rows) by (nonlinear_arith);
    crate::store::lemma_row_size(o.format(name, r, r.cols as int), r.cols as int);
    let row = o.format(name, r, r.cols as int).row_size(r.cols as int);
    assert(r.slabs * r.rows >= 0) by (nonlinear_arith);
    assert(r.slabs * r.rows * row >= 0) by (nonlinear_arith)
        requires
            r.slabs * r.rows >= 0,
            row >= 0,
    ;
}

/// A packed file says of a tensor its format, its length, its offset and its shape; and of the model
/// its config, its tokenizer and its template.
pub proof fn law_headers_say(i: ItemV, v: Seq<ItemV>, config: JsonV, tokenizer: JsonV, chat: JsonV)
    ensures
        described(i).field("dt"@) == JsonV::Str(crate::quant::name_of(i.dt)),
        described(i).field("len"@) == JsonV::Num(NumberV::Pos(i.len)),
        described(i).field("off"@) == JsonV::Num(NumberV::Pos(i.off)),
        crate::store_laws::has_shape(described(i), i.shape),
        header_of(v, config, tokenizer, chat).field("config"@) == config,
        header_of(v, config, tokenizer, chat).field("tokenizer"@) == tokenizer,
        header_of(v, config, tokenizer, chat).field("chat_template"@) == chat,
{
    reveal_strlit("dt");
    reveal_strlit("len");
    reveal_strlit("off");
    reveal_strlit("shape");
    reveal_strlit("chat_template");
    reveal_strlit("config");
    reveal_strlit("tensors");
    reveal_strlit("tokenizer");
    assert("dt"@.len() == 2);
    assert("len"@.len() == 3 && "len"@[0] == 'l');
    assert("off"@.len() == 3 && "off"@[0] == 'o');
    assert("shape"@.len() == 5);
    assert("chat_template"@.len() == 13);
    assert("config"@.len() == 6);
    assert("tensors"@.len() == 7);
    assert("tokenizer"@.len() == 9);
    reveal_with_fuel(entry_from, 5);
    assert(crate::pack::json_counts(i.shape) =~= Seq::new(i.shape.len(), |k: int| JsonV::Num(NumberV::Pos(i.shape[k] as u64))));
}

} // verus!
