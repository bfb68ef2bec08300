//! Binding: which tensor plays which part.
//!
//! A layer is routed if it actually carries experts; that covers dense-prefix models
//! and every-Nth-layer sparsity without config. Three layouts exist for experts, and
//! which one a checkpoint uses is visible in the tensors rather than the config: one
//! fused `[E, 2*inter, hidden]` stack holding gate and up together; a separate 3-D
//! stack per projection, which is what GGUF writes; or a tensor per expert. All three
//! address an expert as a row range, so selecting one stays an offset calculation.

use vstd::prelude::*;
use vstd::string::*;
use crate::json::{Json, JsonV};
use crate::quant::QT;
use crate::spec::{in_layer, first_of, Mla, Spec, SpecV};
use crate::store::{is_view, Store, StoreV};
use crate::text::{decimal, decimal_of, join, join3};

verus! {

/// A part of a tensor: rows `start` to before `end` of a slab.
#[verifier::ext_equal]
pub struct Slot {
    pub name: Seq<char>,
    pub slab: int,
    pub start: int,
    pub end: int,
}

/// A whole tensor, where it can be read.
pub open spec fn whole(s: Store, name: Seq<char>) -> Option<Slot> {
    if s.readable(name) {
        Some(Slot { name, slab: 0, start: 0, end: s.model().height(name) })
    } else {
        None
    }
}

/// Rows of a slab, where they can be read.
pub open spec fn part(s: Store, name: Seq<char>, slab: int, start: int, end: int) -> Option<Slot> {
    if s.model().span(name, slab, start, end) is Some {
        Some(Slot { name, slab, start, end })
    } else {
        None
    }
}

/// The first of two that is there.
pub open spec fn either(a: Option<Slot>, b: Option<Slot>) -> Option<Slot> {
    match a {
        Some(x) => Some(x),
        None => b,
    }
}

/// Whether a view shows a part.
pub open spec fn shows(q: QT, s: Store, x: Slot) -> bool {
    is_view(Some(q), s.model(), x.name, x.slab, x.start, x.end)
}

/// Whether an optional view shows an optional part.
pub open spec fn shows_if(q: Option<QT>, s: Store, x: Option<Slot>) -> bool {
    match (q, x) {
        (Some(q), Some(x)) => shows(q, s, x),
        (None, None) => true,
        _ => false,
    }
}

/// Why a model cannot be bound.
#[derive(Debug)]
pub enum LoadFault {
    /// A tensor that plays this part is missing.
    Missing(String),
    /// A layer has no feed-forward part that is recognised.
    Unknown(String, usize),
}

/// What a [`LoadFault`] holds.
pub enum LoadFaultV {
    Missing(Seq<char>),
    Unknown(Seq<char>, int),
}

impl View for LoadFault {
    type V = LoadFaultV;

    open spec fn view(&self) -> LoadFaultV {
        match *self {
            LoadFault::Missing(w) => LoadFaultV::Missing(w@),
            LoadFault::Unknown(a, l) => LoadFaultV::Unknown(a@, l as int),
        }
    }
}

impl LoadFaultV {
    /// What is wrong, in words.
    pub open spec fn message(self) -> Seq<char> {
        match self {
            LoadFaultV::Missing(w) => "missing tensor: "@ + w,
            LoadFaultV::Unknown(a, l) => a + ": layer "@ + (decimal_of(l as nat)
                + " has no feed-forward this engine recognises. Its tensors are named something docs/MODELS.md does not list."@),
        }
    }
}

impl LoadFault {
    /// What is wrong, in words.
    pub fn message(&self) -> (r: String)
        ensures
            r@ == self@.message(),
    {
        match self {
            LoadFault::Missing(w) => join("missing tensor: ", w.as_str()),
            LoadFault::Unknown(a, l) => {
                let tail = join(
                    decimal(*l as u64).as_str(),
                    " has no feed-forward this engine recognises. Its tensors are named something docs/MODELS.md does not list.",
                );
                join3(a.as_str(), ": layer ", tail.as_str())
            },
        }
    }
}

/// A part that is needed.
pub open spec fn needed(x: Option<Slot>, what: Seq<char>) -> Result<Slot, LoadFaultV> {
    match x {
        Some(s) => Ok(s),
        None => Err(LoadFaultV::Missing(what)),
    }
}

/// The projections of a feed-forward part.
#[derive(Clone, Copy)]
pub struct Mlp {
    pub gate: QT,
    pub up: QT,
    pub down: QT,
}

/// Where the projections of a feed-forward part lie.
pub struct MlpV {
    pub gate: Slot,
    pub up: Slot,
    pub down: Slot,
}

pub open spec fn mlp_shows(m: Mlp, s: Store, v: MlpV) -> bool {
    shows(m.gate, s, v.gate) && shows(m.up, s, v.up) && shows(m.down, s, v.down)
}

/// The weights of attention.
pub enum Attn {
    Gqa {
        q: QT,
        k: QT,
        v: QT,
        o: QT,
        bias: (Option<QT>, Option<QT>, Option<QT>),
        q_norm: Option<QT>,
        k_norm: Option<QT>,
    },
    Mla {
        dims: Mla,
        q_a: Option<QT>,
        q_a_norm: Option<QT>,
        q_b: QT,
        kv_a: QT,
        kv_a_norm: QT,
        kv_b: QT,
        out: QT,
    },
}

/// Where the weights of attention lie.
pub enum AttnV {
    Gqa {
        q: Slot,
        k: Slot,
        v: Slot,
        o: Slot,
        bias: (Option<Slot>, Option<Slot>, Option<Slot>),
        q_norm: Option<Slot>,
        k_norm: Option<Slot>,
    },
    Mla {
        dims: Mla,
        q_a: Option<Slot>,
        q_a_norm: Option<Slot>,
        q_b: Slot,
        kv_a: Slot,
        kv_a_norm: Slot,
        kv_b: Slot,
        out: Slot,
    },
}

pub open spec fn attn_shows(a: Attn, s: Store, x: AttnV) -> bool {
    match (a, x) {
        (Attn::Gqa { q, k, v, o, bias, q_norm, k_norm }, AttnV::Gqa { q: q1, k: k1, v: v1, o: o1, bias: b1, q_norm: qn, k_norm: kn }) => {
            &&& shows(q, s, q1) && shows(k, s, k1) && shows(v, s, v1) && shows(o, s, o1)
            &&& shows_if(bias.0, s, b1.0) && shows_if(bias.1, s, b1.1) && shows_if(bias.2, s, b1.2)
            &&& shows_if(q_norm, s, qn) && shows_if(k_norm, s, kn)
        },
        (
            Attn::Mla { dims, q_a, q_a_norm, q_b, kv_a, kv_a_norm, kv_b, out },
            AttnV::Mla { dims: d1, q_a: a1, q_a_norm: an, q_b: b1, kv_a: k1, kv_a_norm: kn, kv_b: kb, out: o1 },
        ) => {
            &&& dims == d1
            &&& shows_if(q_a, s, a1) && shows_if(q_a_norm, s, an)
            &&& shows(q_b, s, b1) && shows(kv_a, s, k1) && shows(kv_a_norm, s, kn) && shows(kv_b, s, kb)
            &&& shows(out, s, o1)
        },
        _ => false,
    }
}

/// Where the attention weights of a layer lie, or the first that is missing.
pub open spec fn attention_of(s: Store, p: Seq<char>, mla: Option<Mla>) -> Result<AttnV, LoadFaultV> {
    let g = |x: Seq<char>| whole(s, p + x);
    match mla {
        Some(dims) => match (
            needed(
                either(g("self_attn.q_b_proj.weight"@), g("self_attn.q_proj.weight"@)),
                "q projection"@,
            ),
            needed(g("self_attn.kv_a_proj_with_mqa.weight"@), "kv_a_proj_with_mqa"@),
            needed(g("self_attn.kv_a_layernorm.weight"@), "kv_a_layernorm"@),
            needed(g("self_attn.kv_b_proj.weight"@), "kv_b_proj"@),
            needed(g("self_attn.o_proj.weight"@), "o_proj"@),
        ) {
            (Ok(q_b), Ok(kv_a), Ok(kv_a_norm), Ok(kv_b), Ok(out)) => Ok(
                AttnV::Mla {
                    dims,
                    q_a: g("self_attn.q_a_proj.weight"@),
                    q_a_norm: g("self_attn.q_a_layernorm.weight"@),
                    q_b,
                    kv_a,
                    kv_a_norm,
                    kv_b,
                    out,
                },
            ),
            (Err(e), _, _, _, _) => Err(e),
            (_, Err(e), _, _, _) => Err(e),
            (_, _, Err(e), _, _) => Err(e),
            (_, _, _, Err(e), _) => Err(e),
            (_, _, _, _, Err(e)) => Err(e),
        },
        None => match (
            needed(g("self_attn.q_proj.weight"@), "q_proj"@),
            needed(g("self_attn.k_proj.weight"@), "k_proj"@),
            needed(g("self_attn.v_proj.weight"@), "v_proj"@),
            needed(g("self_attn.o_proj.weight"@), "o_proj"@),
        ) {
            (Ok(q), Ok(k), Ok(v), Ok(o)) => Ok(
                AttnV::Gqa {
                    q,
                    k,
                    v,
                    o,
                    bias: (
                        g("self_attn.q_proj.bias"@),
                        g("self_attn.k_proj.bias"@),
                        g("self_attn.v_proj.bias"@),
                    ),
                    q_norm: g("self_attn.q_norm.weight"@),
                    k_norm: g("self_attn.k_norm.weight"@),
                },
            ),
            (Err(e), _, _, _) => Err(e),
            (_, Err(e), _, _) => Err(e),
            (_, _, Err(e), _) => Err(e),
            (_, _, _, Err(e)) => Err(e),
        },
    }
}

fn get(store: &Store, p: &str, suffix: &str) -> (r: Option<QT>)
    requires
        store.valid(),
    ensures
        shows_if(r, *store, whole(*store, p@ + suffix@)),
{
    store.get(join(p, suffix).as_str())
}

fn need(t: Option<QT>, what: &str) -> (r: Result<QT, LoadFault>)
    ensures
        match r {
            Ok(q) => t == Some(q),
            Err(e) => t is None && e@ == LoadFaultV::Missing(what@),
        },
{
    match t {
        Some(q) => Ok(q),
        None => Err(LoadFault::Missing(what.to_owned())),
    }
}

fn get_either(store: &Store, p: &str, a: &str, b: &str) -> (r: Option<QT>)
    requires
        store.valid(),
    ensures
        shows_if(r, *store, either(whole(*store, p@ + a@), whole(*store, p@ + b@))),
{
    match get(store, p, a) {
        Some(q) => Some(q),
        None => get(store, p, b),
    }
}

fn bind_attention(store: &Store, p: &str, mla: Option<Mla>) -> (r: Result<Attn, LoadFault>)
    requires
        store.valid(),
    ensures
        match r {
            Ok(a) => {
                &&& attention_of(*store, p@, mla) matches Ok(x)
                &&& attn_shows(a, *store, x)
            },
            Err(e) => attention_of(*store, p@, mla) == Err::<AttnV, LoadFaultV>(e@),
        },
{
    match mla {
        Some(dims) => {
            let q_b: QT = match need(
                get_either(store, p, "self_attn.q_b_proj.weight", "self_attn.q_proj.weight"),
                "q projection",
            ) {
                Ok(q) => q,
                Err(e) => return Err(e),
            };
            let kv_a: QT = match need(
                get(store, p, "self_attn.kv_a_proj_with_mqa.weight"),
                "kv_a_proj_with_mqa",
            ) {
                Ok(q) => q,
                Err(e) => return Err(e),
            };
            let kv_a_norm: QT = match need(get(store, p, "self_attn.kv_a_layernorm.weight"), "kv_a_layernorm") {
                Ok(q) => q,
                Err(e) => return Err(e),
            };
            let kv_b: QT = match need(get(store, p, "self_attn.kv_b_proj.weight"), "kv_b_proj") {
                Ok(q) => q,
                Err(e) => return Err(e),
            };
            let out: QT = match need(get(store, p, "self_attn.o_proj.weight"), "o_proj") {
                Ok(q) => q,
                Err(e) => return Err(e),
            };
            Ok(
                Attn::Mla {
                    dims,
                    q_a: get(store, p, "self_attn.q_a_proj.weight"),
                    q_a_norm: get(store, p, "self_attn.q_a_layernorm.weight"),
                    q_b,
                    kv_a,
                    kv_a_norm,
                    kv_b,
                    out,
                },
            )
        },
        None => {
            let q: QT = match need(get(store, p, "self_attn.q_proj.weight"), "q_proj") {
                Ok(q) => q,
                Err(e) => return Err(e),
            };
            let k: QT = match need(get(store, p, "self_attn.k_proj.weight"), "k_proj") {
                Ok(q) => q,
                Err(e) => return Err(e),
            };
            let v: QT = match need(get(store, p, "self_attn.v_proj.weight"), "v_proj") {
                Ok(q) => q,
                Err(e) => return Err(e),
            };
            let o: QT = match need(get(store, p, "self_attn.o_proj.weight"), "o_proj") {
                Ok(q) => q,
                Err(e) => return Err(e),
            };
            Ok(
                Attn::Gqa {
                    q,
                    k,
                    v,
                    o,
                    bias: (
                        get(store, p, "self_attn.q_proj.bias"),
                        get(store, p, "self_attn.k_proj.bias"),
                        get(store, p, "self_attn.v_proj.bias"),
                    ),
                    q_norm: get(store, p, "self_attn.q_norm.weight"),
                    k_norm: get(store, p, "self_attn.k_norm.weight"),
                },
            )
        },
    }
}

/// The name of a projection: gate, up and down.
pub open spec fn projection(which: int) -> Seq<char> {
    if which == 0 {
        "gate_proj"@
    } else if which == 1 {
        "up_proj"@
    } else {
        "down_proj"@
    }
}

/// What Mixtral calls a projection.
pub open spec fn short_projection(which: int) -> Seq<char> {
    if which == 0 {
        "w1"@
    } else if which == 1 {
        "w3"@
    } else {
        "w2"@
    }
}

/// How a layer stores its experts.
#[derive(Clone, Copy, PartialEq, Eq, Debug, Structural)]
pub enum Packing {
    /// One stack holding gate and up together, with so many rows per expert.
    Fused(usize),
    /// A stack per projection.
    Stacked,
    /// A tensor per expert.
    Single,
}

/// Whether a layer has a stack of a projection.
pub open spec fn is_stacked(s: StoreV, p: Seq<char>, which: int) -> bool {
    let n = p + ("mlp.experts."@ + projection(which));
    s.index.dom().contains(n) && s.index[n].slabs >= 2
}

/// How a layer stores its experts.
pub open spec fn packing_of(s: StoreV, p: Seq<char>) -> Packing {
    let fused = p + "mlp.experts.gate_up_proj"@;
    if s.index.dom().contains(fused) {
        Packing::Fused(s.index[fused].rows)
    } else if is_stacked(s, p, 0) && is_stacked(s, p, 1) && is_stacked(s, p, 2) {
        Packing::Stacked
    } else {
        Packing::Single
    }
}

/// All rows of one slab of a stack.
pub open spec fn slab_of(s: Store, name: Seq<char>, e: int) -> Option<Slot> {
    if s.model().index.dom().contains(name) {
        part(s, name, e, 0, s.model().index[name].rows as int)
    } else {
        None
    }
}

/// Where a projection of an expert lies. In a fused stack gate is the first half of
/// the rows and up the second.
pub open spec fn expert_slot(s: Store, p: Seq<char>, k: Packing, e: int, which: int) -> Option<Slot> {
    match k {
        Packing::Fused(rows) => {
            let inter = rows as int / 2;
            if which == 0 {
                part(s, p + "mlp.experts.gate_up_proj"@, e, 0, inter)
            } else if which == 1 {
                part(s, p + "mlp.experts.gate_up_proj"@, e, inter, 2 * inter)
            } else {
                slab_of(s, p + "mlp.experts.down_proj"@, e)
            }
        },
        Packing::Stacked => slab_of(s, p + ("mlp.experts."@ + projection(which)), e),
        Packing::Single => either(
            whole(s, p + ("mlp.experts."@ + decimal_of(e as nat) + "."@ + (projection(which) + ".weight"@))),
            whole(
                s,
                p + ("block_sparse_moe.experts."@ + decimal_of(e as nat) + "."@ + (short_projection(which)
                    + ".weight"@)),
            ),
        ),
    }
}

/// What a projection of an expert is called when it is missing.
pub open spec fn expert_part(e: int, which: int) -> Seq<char> {
    "expert "@ + decimal_of(e as nat) + (if which == 0 {
        " gate"@
    } else if which == 1 {
        " up"@
    } else {
        " down"@
    })
}

/// Three parts that are needed, in order.
pub open spec fn mlp_of(
    a: Result<Slot, LoadFaultV>,
    b: Result<Slot, LoadFaultV>,
    c: Result<Slot, LoadFaultV>,
) -> Result<MlpV, LoadFaultV> {
    match (a, b, c) {
        (Ok(gate), Ok(up), Ok(down)) => Ok(MlpV { gate, up, down }),
        (Err(e), _, _) => Err(e),
        (_, Err(e), _) => Err(e),
        (_, _, Err(e)) => Err(e),
    }
}

/// Where an expert lies.
pub open spec fn expert_of(s: Store, p: Seq<char>, k: Packing, e: int) -> Result<MlpV, LoadFaultV> {
    mlp_of(
        needed(expert_slot(s, p, k, e, 0), expert_part(e, 0)),
        needed(expert_slot(s, p, k, e, 1), expert_part(e, 1)),
        needed(expert_slot(s, p, k, e, 2), expert_part(e, 2)),
    )
}

/// Where the first `n` experts lie.
pub open spec fn experts_of(s: Store, p: Seq<char>, k: Packing, n: nat) -> Result<Seq<MlpV>, LoadFaultV>
    decreases n,
{
    if n == 0 {
        Ok(Seq::empty())
    } else {
        match experts_of(s, p, k, (n - 1) as nat) {
            Err(e) => Err(e),
            Ok(v) => match expert_of(s, p, k, n - 1) {
                Err(e) => Err(e),
                Ok(m) => Ok(v.push(m)),
            },
        }
    }
}

/// Where a projection of the shared expert lies.
pub open spec fn shared_slot(s: Store, p: Seq<char>, which: int) -> Option<Slot> {
    either(
        whole(s, p + ("mlp.shared_expert."@ + projection(which) + ".weight"@)),
        whole(s, p + ("mlp.shared_experts."@ + projection(which) + ".weight"@)),
    )
}

/// Where the shared expert lies, where a layer has one.
pub open spec fn shared_of(s: Store, p: Seq<char>) -> Result<Option<MlpV>, LoadFaultV> {
    match shared_slot(s, p, 0) {
        None => Ok(None),
        Some(gate) => match mlp_of(
            Ok(gate),
            needed(shared_slot(s, p, 1), "shared expert up"@),
            needed(shared_slot(s, p, 2), "shared expert down"@),
        ) {
            Ok(m) => Ok(Some(m)),
            Err(e) => Err(e),
        },
    }
}

/// The feed-forward part of a layer.
pub enum Ffn {
    Dense(Mlp),
    Moe { router: QT, e_bias: Option<QT>, experts: Vec<Mlp>, shared: Option<Mlp>, shared_gate: Option<QT> },
}

/// Where the feed-forward part of a layer lies.
pub enum FfnV {
    Dense(MlpV),
    Moe {
        router: Slot,
        e_bias: Option<Slot>,
        experts: Seq<MlpV>,
        shared: Option<MlpV>,
        shared_gate: Option<Slot>,
    },
}

pub open spec fn mlp_shows_if(m: Option<Mlp>, s: Store, v: Option<MlpV>) -> bool {
    match (m, v) {
        (Some(m), Some(v)) => mlp_shows(m, s, v),
        (None, None) => true,
        _ => false,
    }
}

pub open spec fn all_show(m: Seq<Mlp>, s: Store, v: Seq<MlpV>) -> bool {
    m.len() == v.len() && forall|i: int| 0 <= i < m.len() ==> mlp_shows(#[trigger] m[i], s, v[i])
}

pub open spec fn ffn_shows(f: Ffn, s: Store, x: FfnV) -> bool {
    match (f, x) {
        (Ffn::Dense(m), FfnV::Dense(v)) => mlp_shows(m, s, v),
        (
            Ffn::Moe { router, e_bias, experts, shared, shared_gate },
            FfnV::Moe { router: r1, e_bias: b1, experts: e1, shared: s1, shared_gate: g1 },
        ) => {
            &&& shows(router, s, r1)
            &&& shows_if(e_bias, s, b1)
            &&& all_show(experts@, s, e1)
            &&& mlp_shows_if(shared, s, s1)
            &&& shows_if(shared_gate, s, g1)
        },
        _ => false,
    }
}

/// What a checkpoint calls itself, for a message.
pub open spec fn called(cfg: JsonV) -> Seq<char> {
    match first_of(cfg.field("architectures"@)).as_str() {
        Some(a) => a,
        None => "this checkpoint"@,
    }
}

/// Where the feed-forward part of layer `l` lies: routed where the model has experts
/// and this layer carries the first one.
pub open spec fn ffn_of(s: Store, p: Seq<char>, experts: usize, l: int) -> Result<FfnV, LoadFaultV> {
    let g = |x: Seq<char>| whole(s, p + x);
    let k = packing_of(s.model(), p);
    if experts > 0 && expert_slot(s, p, k, 0, 0) is Some {
        match (
            experts_of(s, p, k, experts as nat),
            needed(either(g("mlp.gate.weight"@), g("block_sparse_moe.gate.weight"@)), "router"@),
            shared_of(s, p),
        ) {
            (Ok(v), Ok(router), Ok(shared)) => Ok(
                FfnV::Moe {
                    router,
                    e_bias: g("mlp.gate.e_score_correction_bias"@),
                    experts: v,
                    shared,
                    shared_gate: g("mlp.shared_expert_gate.weight"@),
                },
            ),
            (Err(e), _, _) => Err(e),
            (_, Err(e), _) => Err(e),
            (_, _, Err(e)) => Err(e),
        }
    } else {
        match either(g("mlp.gate_proj.weight"@), g("mlp.w1.weight"@)) {
            None => Err(LoadFaultV::Unknown(called(s.model().config), l)),
            Some(gate) => match mlp_of(
                Ok(gate),
                needed(either(g("mlp.up_proj.weight"@), g("mlp.w3.weight"@)), "mlp.up_proj"@),
                needed(either(g("mlp.down_proj.weight"@), g("mlp.w2.weight"@)), "mlp.down_proj"@),
            ) {
                Ok(m) => Ok(FfnV::Dense(m)),
                Err(e) => Err(e),
            },
        }
    }
}

fn projection_name(which: usize) -> (r: &'static str)
    ensures
        r@ == projection(which as int),
{
    if which == 0 {
        "gate_proj"
    } else if which == 1 {
        "up_proj"
    } else {
        "down_proj"
    }
}

fn short_name(which: usize) -> (r: &'static str)
    ensures
        r@ == short_projection(which as int),
{
    if which == 0 {
        "w1"
    } else if which == 1 {
        "w3"
    } else {
        "w2"
    }
}

fn has_stack(store: &Store, p: &str, which: usize) -> (r: bool)
    requires
        store.valid(),
    ensures
        r == is_stacked(store.model(), p@, which as int),
{
    let n = join(p, join("mlp.experts.", projection_name(which)).as_str());
    match store.shape(n.as_str()) {
        Some(d) => d.0 >= 2,
        None => false,
    }
}

fn find_packing(store: &Store, p: &str) -> (r: Packing)
    requires
        store.valid(),
    ensures
        r == packing_of(store.model(), p@),
{
    match store.shape(join(p, "mlp.experts.gate_up_proj").as_str()) {
        Some(d) => Packing::Fused(d.1),
        None => if has_stack(store, p, 0) && has_stack(store, p, 1) && has_stack(store, p, 2) {
            Packing::Stacked
        } else {
            Packing::Single
        },
    }
}

fn get_slab(store: &Store, name: &str, e: usize) -> (r: Option<QT>)
    requires
        store.valid(),
    ensures
        shows_if(r, *store, slab_of(*store, name@, e as int)),
{
    match store.shape(name) {
        Some(d) => store.view(name, e, 0, d.1),
        None => None,
    }
}

fn get_expert(store: &Store, p: &str, k: Packing, e: usize, which: usize) -> (r: Option<QT>)
    requires
        store.valid(),
    ensures
        shows_if(r, *store, expert_slot(*store, p@, k, e as int, which as int)),
{
    match k {
        Packing::Fused(rows) => {
            let inter: usize = rows / 2;
            if which == 0 {
                store.view(join(p, "mlp.experts.gate_up_proj").as_str(), e, 0, inter)
            } else if which == 1 {
                store.view(join(p, "mlp.experts.gate_up_proj").as_str(), e, inter, 2 * inter)
            } else {
                get_slab(store, join(p, "mlp.experts.down_proj").as_str(), e)
            }
        },
        Packing::Stacked => {
            let n = join(p, join("mlp.experts.", projection_name(which)).as_str());
            get_slab(store, n.as_str(), e)
        },
        Packing::Single => {
            let d = decimal(e as u64);
            let a = join(
                join3("mlp.experts.", d.as_str(), ".").as_str(),
                join(projection_name(which), ".weight").as_str(),
            );
            match get(store, p, a.as_str()) {
                Some(q) => Some(q),
                None => {
                    let b = join(
                        join3("block_sparse_moe.experts.", d.as_str(), ".").as_str(),
                        join(short_name(which), ".weight").as_str(),
                    );
                    get(store, p, b.as_str())
                },
            }
        },
    }
}

fn need_expert(store: &Store, p: &str, k: Packing, e: usize, which: usize) -> (r: Result<QT, LoadFault>)
    requires
        store.valid(),
    ensures
        match r {
            Ok(q) => {
                &&& needed(
                    expert_slot(*store, p@, k, e as int, which as int),
                    expert_part(e as int, which as int),
                ) matches Ok(x)
                &&& shows(q, *store, x)
            },
            Err(f) => needed(
                expert_slot(*store, p@, k, e as int, which as int),
                expert_part(e as int, which as int),
            ) == Err::<Slot, LoadFaultV>(f@),
        },
{
    let word: &str = if which == 0 {
        " gate"
    } else if which == 1 {
        " up"
    } else {
        " down"
    };
    let what = join3("expert ", decimal(e as u64).as_str(), word);
    need(get_expert(store, p, k, e, which), what.as_str())
}

proof fn lemma_experts_stuck(s: Store, p: Seq<char>, k: Packing, m: nat, n: nat)
    requires
        m <= n,
        experts_of(s, p, k, m) is Err,
    ensures
        experts_of(s, p, k, n) == experts_of(s, p, k, m),
    decreases n,
{
    if m < n {
        lemma_experts_stuck(s, p, k, m, (n - 1) as nat);
    }
}

fn bind_expert(store: &Store, p: &str, k: Packing, e: usize) -> (r: Result<Mlp, LoadFault>)
    requires
        store.valid(),
    ensures
        match r {
            Ok(m) => {
                &&& expert_of(*store, p@, k, e as int) matches Ok(x)
                &&& mlp_shows(m, *store, x)
            },
            Err(f) => expert_of(*store, p@, k, e as int) == Err::<MlpV, LoadFaultV>(f@),
        },
{
    let gate: QT = match need_expert(store, p, k, e, 0) {
        Ok(q) => q,
        Err(f) => return Err(f),
    };
    let up: QT = match need_expert(store, p, k, e, 1) {
        Ok(q) => q,
        Err(f) => return Err(f),
    };
    let down: QT = match need_expert(store, p, k, e, 2) {
        Ok(q) => q,
        Err(f) => return Err(f),
    };
    Ok(Mlp { gate, up, down })
}

#[verifier::loop_isolation(false)]
fn bind_experts(store: &Store, p: &str, k: Packing, n: usize) -> (r: Result<Vec<Mlp>, LoadFault>)
    requires
        store.valid(),
    ensures
        match r {
            Ok(v) => {
                &&& experts_of(*store, p@, k, n as nat) matches Ok(x)
                &&& all_show(v@, *store, x)
            },
            Err(f) => experts_of(*store, p@, k, n as nat) == Err::<Seq<MlpV>, LoadFaultV>(f@),
        },
{
    let mut out: Vec<Mlp> = Vec::new();
    let ghost mut x: Seq<MlpV> = Seq::empty();
    let mut e: usize = 0;
    while e < n
        invariant
            e <= n,
            experts_of(*store, p@, k, e as nat) == Ok::<Seq<MlpV>, LoadFaultV>(x),
            all_show(out@, *store, x),
            x.len() == e,
        decreases n - e,
    {
        match bind_expert(store, p, k, e) {
            Err(f) => {
                proof {
                    assert(experts_of(*store, p@, k, (e + 1) as nat) is Err);
                    lemma_experts_stuck(*store, p@, k, (e + 1) as nat, n as nat);
                }
                return Err(f);
            },
            Ok(m) => {
                out.push(m);
                proof {
                    x = x.push(expert_of(*store, p@, k, e as int)->Ok_0);
                }
            },
        }
        e += 1;
    }
    Ok(out)
}

fn get_shared(store: &Store, p: &str, which: usize) -> (r: Option<QT>)
    requires
        store.valid(),
    ensures
        shows_if(r, *store, shared_slot(*store, p@, which as int)),
{
    let n: &str = projection_name(which);
    get_either(
        store,
        p,
        join3("mlp.shared_expert.", n, ".weight").as_str(),
        join3("mlp.shared_experts.", n, ".weight").as_str(),
    )
}

fn bind_shared(store: &Store, p: &str) -> (r: Result<Option<Mlp>, LoadFault>)
    requires
        store.valid(),
    ensures
        match r {
            Ok(m) => {
                &&& shared_of(*store, p@) matches Ok(x)
                &&& mlp_shows_if(m, *store, x)
            },
            Err(f) => shared_of(*store, p@) == Err::<Option<MlpV>, LoadFaultV>(f@),
        },
{
    let gate: QT = match get_shared(store, p, 0) {
        None => return Ok(None),
        Some(q) => q,
    };
    let up: QT = match need(get_shared(store, p, 1), "shared expert up") {
        Ok(q) => q,
        Err(f) => return Err(f),
    };
    let down: QT = match need(get_shared(store, p, 2), "shared expert down") {
        Ok(q) => q,
        Err(f) => return Err(f),
    };
    Ok(Some(Mlp { gate, up, down }))
}

fn bind_ffn(store: &Store, p: &str, experts: usize, l: usize) -> (r: Result<Ffn, LoadFault>)
    requires
        store.valid(),
    ensures
        match r {
            Ok(f) => {
                &&& ffn_of(*store, p@, experts, l as int) matches Ok(x)
                &&& ffn_shows(f, *store, x)
            },
            Err(f) => ffn_of(*store, p@, experts, l as int) == Err::<FfnV, LoadFaultV>(f@),
        },
{
    let k: Packing = find_packing(store, p);
    if experts > 0 && get_expert(store, p, k, 0, 0).is_some() {
        let v: Vec<Mlp> = match bind_experts(store, p, k, experts) {
            Ok(v) => v,
            Err(f) => return Err(f),
        };
        let router: QT = match need(
            get_either(store, p, "mlp.gate.weight", "block_sparse_moe.gate.weight"),
            "router",
        ) {
            Ok(q) => q,
            Err(f) => return Err(f),
        };
        let shared: Option<Mlp> = match bind_shared(store, p) {
            Ok(m) => m,
            Err(f) => return Err(f),
        };
        Ok(
            Ffn::Moe {
                router,
                e_bias: get(store, p, "mlp.gate.e_score_correction_bias"),
                experts: v,
                shared,
                shared_gate: get(store, p, "mlp.shared_expert_gate.weight"),
            },
        )
    } else {
        // A layer with neither a recognised router nor a recognised dense
        // feed-forward is an architecture this engine has not been taught, not a
        // broken checkpoint, so say which one it is.
        let gate: QT = match get_either(store, p, "mlp.gate_proj.weight", "mlp.w1.weight") {
            Some(q) => q,
            None => {
                let listed: &Json = store.config().field("architectures");
                let named: Option<&str> = if listed.count() > 0 {
                    listed.item(0).as_str()
                } else {
                    None
                };
                let arch: &str = match named {
                    Some(a) => a,
                    None => "this checkpoint",
                };
                return Err(LoadFault::Unknown(arch.to_owned(), l));
            },
        };
        let up: QT = match need(get_either(store, p, "mlp.up_proj.weight", "mlp.w3.weight"), "mlp.up_proj") {
            Ok(q) => q,
            Err(f) => return Err(f),
        };
        let down: QT = match need(get_either(store, p, "mlp.down_proj.weight", "mlp.w2.weight"), "mlp.down_proj") {
            Ok(q) => q,
            Err(f) => return Err(f),
        };
        Ok(Ffn::Dense(Mlp { gate, up, down }))
    }
}

/// One layer's weights.
pub struct Layer {
    pub ln1: QT,
    pub ln2: QT,
    pub attn: Attn,
    pub ffn: Ffn,
}

/// Where one layer's weights lie.
pub struct LayerV {
    pub ln1: Slot,
    pub ln2: Slot,
    pub attn: AttnV,
    pub ffn: FfnV,
}

pub open spec fn layer_shows(w: Layer, s: Store, v: LayerV) -> bool {
    shows(w.ln1, s, v.ln1) && shows(w.ln2, s, v.ln2) && attn_shows(w.attn, s, v.attn) && ffn_shows(w.ffn, s, v.ffn)
}

/// Where the weights of layer `l` lie, or what is missing first.
pub open spec fn layer_of(s: Store, m: SpecV, l: int) -> Result<LayerV, LoadFaultV> {
    let p = in_layer(m.prefix, l as nat, ""@);
    let g = |x: Seq<char>| whole(s, p + x);
    match (
        attention_of(s, p, m.mla),
        ffn_of(s, p, m.experts, l),
        needed(either(g("input_layernorm.weight"@), g("ln1.weight"@)), "input_layernorm"@),
        needed(either(g("post_attention_layernorm.weight"@), g("ln2.weight"@)), "post_attention_layernorm"@),
    ) {
        (Ok(attn), Ok(ffn), Ok(ln1), Ok(ln2)) => Ok(LayerV { ln1, ln2, attn, ffn }),
        (Err(e), _, _, _) => Err(e),
        (_, Err(e), _, _) => Err(e),
        (_, _, Err(e), _) => Err(e),
        (_, _, _, Err(e)) => Err(e),
    }
}

/// Where the weights of the first `n` layers lie, or what is missing first.
pub open spec fn layers_of(s: Store, m: SpecV, n: nat) -> Result<Seq<LayerV>, LoadFaultV>
    decreases n,
{
    if n == 0 {
        Ok(Seq::empty())
    } else {
        match layers_of(s, m, (n - 1) as nat) {
            Err(e) => Err(e),
            Ok(v) => match layer_of(s, m, n - 1) {
                Err(e) => Err(e),
                Ok(x) => Ok(v.push(x)),
            },
        }
    }
}

/// A model's weights.
pub struct Bound {
    pub embed: QT,
    pub out_norm: QT,
    pub lm_head: QT,
    pub layers: Vec<Layer>,
}

/// Where a model's weights lie.
pub struct BoundV {
    pub embed: Slot,
    pub out_norm: Slot,
    pub lm_head: Slot,
    pub layers: Seq<LayerV>,
}

/// The first of three that is there.
pub open spec fn among(a: Option<Slot>, b: Option<Slot>, c: Option<Slot>) -> Option<Slot> {
    either(a, either(b, c))
}

/// Where a model's weights lie, or what is missing first. An output head that is not
/// there is the embedding.
pub open spec fn bound_of(s: Store, m: SpecV) -> Result<BoundV, LoadFaultV> {
    match (
        needed(
            among(
                whole(s, "model.embed_tokens.weight"@),
                whole(s, "embed_tokens.weight"@),
                whole(s, "transformer.wte.weight"@),
            ),
            "embedding"@,
        ),
        needed(
            among(
                whole(s, "model.norm.weight"@),
                whole(s, "norm.weight"@),
                whole(s, "model.final_layernorm.weight"@),
            ),
            "final norm"@,
        ),
        layers_of(s, m, m.layers as nat),
    ) {
        (Ok(embed), Ok(out_norm), Ok(layers)) => Ok(
            BoundV {
                embed,
                out_norm,
                lm_head: match either(whole(s, "lm_head.weight"@), whole(s, "output.weight"@)) {
                    Some(x) => x,
                    None => embed,
                },
                layers,
            },
        ),
        (Err(e), _, _) => Err(e),
        (_, Err(e), _) => Err(e),
        (_, _, Err(e)) => Err(e),
    }
}

pub open spec fn layers_show(w: Seq<Layer>, s: Store, v: Seq<LayerV>) -> bool {
    w.len() == v.len() && forall|i: int| 0 <= i < w.len() ==> layer_shows(#[trigger] w[i], s, v[i])
}

pub open spec fn bound_shows(b: Bound, s: Store, v: BoundV) -> bool {
    &&& shows(b.embed, s, v.embed)
    &&& shows(b.out_norm, s, v.out_norm)
    &&& shows(b.lm_head, s, v.lm_head)
    &&& layers_show(b.layers@, s, v.layers)
}

proof fn lemma_layers_stuck(s: Store, m: SpecV, k: nat, n: nat)
    requires
        k <= n,
        layers_of(s, m, k) is Err,
    ensures
        layers_of(s, m, n) == layers_of(s, m, k),
    decreases n,
{
    if k < n {
        lemma_layers_stuck(s, m, k, (n - 1) as nat);
    }
}

fn bind_layer(store: &Store, m: &Spec, l: usize) -> (r: Result<Layer, LoadFault>)
    requires
        store.valid(),
    ensures
        match r {
            Ok(w) => {
                &&& layer_of(*store, m@, l as int) matches Ok(x)
                &&& layer_shows(w, *store, x)
            },
            Err(f) => layer_of(*store, m@, l as int) == Err::<LayerV, LoadFaultV>(f@),
        },
{
    let p: String = join(join3(m.prefix.as_str(), decimal(l as u64).as_str(), ".").as_str(), "");
    let attn: Attn = match bind_attention(store, p.as_str(), m.mla) {
        Ok(a) => a,
        Err(f) => return Err(f),
    };
    let ffn: Ffn = match bind_ffn(store, p.as_str(), m.experts, l) {
        Ok(a) => a,
        Err(f) => return Err(f),
    };
    let ln1: QT = match need(
        get_either(store, p.as_str(), "input_layernorm.weight", "ln1.weight"),
        "input_layernorm",
    ) {
        Ok(q) => q,
        Err(f) => return Err(f),
    };
    let ln2: QT = match need(
        get_either(store, p.as_str(), "post_attention_layernorm.weight", "ln2.weight"),
        "post_attention_layernorm",
    ) {
        Ok(q) => q,
        Err(f) => return Err(f),
    };
    Ok(Layer { ln1, ln2, attn, ffn })
}

fn get_among(store: &Store, a: &str, b: &str, c: &str) -> (r: Option<QT>)
    requires
        store.valid(),
    ensures
        shows_if(r, *store, among(whole(*store, a@), whole(*store, b@), whole(*store, c@))),
{
    match store.get(a) {
        Some(q) => Some(q),
        None => match store.get(b) {
            Some(q) => Some(q),
            None => store.get(c),
        },
    }
}

/// Bind a model's weights: every tensor by the part it plays.
#[verifier::loop_isolation(false)]
pub fn load_with(store: &Store, m: &Spec) -> (r: Result<Bound, LoadFault>)
    requires
        store.valid(),
    ensures
        match r {
            Ok(b) => {
                &&& bound_of(*store, m@) matches Ok(x)
                &&& bound_shows(b, *store, x)
            },
            Err(f) => bound_of(*store, m@) == Err::<BoundV, LoadFaultV>(f@),
        },
{
    let embed: QT = match need(
        get_among(store, "model.embed_tokens.weight", "embed_tokens.weight", "transformer.wte.weight"),
        "embedding",
    ) {
        Ok(q) => q,
        Err(f) => return Err(f),
    };
    let out_norm: QT = match need(
        get_among(store, "model.norm.weight", "norm.weight", "model.final_layernorm.weight"),
        "final norm",
    ) {
        Ok(q) => q,
        Err(f) => return Err(f),
    };
    let lm_head: QT = match store.get("lm_head.weight") {
        Some(q) => q,
        None => match store.get("output.weight") {
            Some(q) => q,
            None => embed,
        },
    };
    let mut layers: Vec<Layer> = Vec::new();
    let ghost mut x: Seq<LayerV> = Seq::empty();
    let mut l: usize = 0;
    while l < m.layers
        invariant
            l <= m.layers,
            layers_of(*store, m@, l as nat) == Ok::<Seq<LayerV>, LoadFaultV>(x),
            layers_show(layers@, *store, x),
            x.len() == l,
        decreases m.layers - l,
    {
        match bind_layer(store, m, l) {
            Err(f) => {
                proof {
                    assert(layers_of(*store, m@, (l + 1) as nat) is Err);
                    lemma_layers_stuck(*store, m@, (l + 1) as nat, m.layers as nat);
                }
                return Err(f);
            },
            Ok(w) => {
                layers.push(w);
                proof {
                    x = x.push(layer_of(*store, m@, l as int)->Ok_0);
                }
            },
        }
        l += 1;
    }
    Ok(Bound { embed, out_norm, lm_head, layers })
}

} // verus!
