//! Model description.
//!
//! Most of a sparse decoder's shape is already implied by the checkpoint: hidden
//! size, vocabulary, expert width, whether attention is latent, whether a layer
//! is dense or routed. So [`Spec`] reads only the handful of values that cannot
//! be recovered from tensor shapes, and everything else is detected from the
//! weights themselves, which is why new checkpoints usually need no code.
//!
//! Floating-point settings are kept as the config states them.

use vstd::prelude::*;
use vstd::string::*;
use crate::float::Real;
use crate::index::Rec;
use crate::json::{elements, Json, JsonV};
use crate::pack::{ends_in, ends_with};
use crate::store::{Store, StoreV};
use crate::text::{at, chars_of, decimal, decimal_of, find, first_at, is_at, join, join3, law_decimal_reads_back, same, substring};

verus! {

/// How a checkpoint stretches rotary embeddings past the context it was trained
/// on. The choice matters: applied wrongly, a model looks fine for a few hundred
/// tokens and then degrades silently, which is worse than refusing to load.
#[derive(Clone, Copy, PartialEq, Eq, Debug, Structural)]
pub enum RopeKind {
    /// Trained context only.
    Plain,
    /// Position interpolation: divide positions by the factor, squeezing the
    /// whole rotation into the trained range.
    Linear,
    /// NTK-aware: raise the base instead, which spreads the loss of resolution
    /// across frequencies rather than concentrating it in the high ones.
    Dynamic,
    /// YaRN: interpolate per frequency between those two, with a smooth ramp and
    /// a compensating factor on the attention scale.
    Yarn,
    /// Llama 3's piecewise scheme: scale the low frequencies, leave the high ones
    /// alone, ramp between.
    Llama3,
}

/// Everything the rotary embedding needs, resolved once at load.
#[derive(Clone, Copy, PartialEq, Eq, Debug, Structural)]
pub struct Rope {
    pub kind: RopeKind,
    pub theta: Real,
    pub factor: Real,
    /// Context the checkpoint was trained for, which is what the scaling is
    /// relative to.
    pub original_ctx: usize,
    /// Llama 3: which wavelengths count as low and high.
    pub low_freq_factor: Real,
    pub high_freq_factor: Real,
    /// YaRN: the frequency band over which the ramp runs.
    pub beta_fast: Real,
    pub beta_slow: Real,
    /// YaRN: extra multiplier on the attention scale.
    pub attn_factor: Real,
    /// DeepSeek's YaRN variant reports the two mscale terms separately.
    pub mscale: Real,
    pub mscale_all_dim: Real,
}

/// Multi-head latent attention dimensions (compressed KV, decoupled RoPE).
#[derive(Clone, Copy, PartialEq, Eq, Debug, Structural)]
pub struct Mla {
    pub q_lora: usize,
    pub kv_lora: usize,
    pub qk_nope: usize,
    pub qk_rope: usize,
    pub v_head: usize,
}

/// The number under a key.
pub open spec fn number_under(cfg: JsonV, key: Seq<char>) -> Option<Real> {
    match cfg.get(key) {
        Some(v) => v.as_real(),
        None => None,
    }
}

/// The number under the first of three keys that has one.
pub open spec fn number_among(cfg: JsonV, a: Seq<char>, b: Seq<char>, c: Seq<char>) -> Option<Real> {
    match number_under(cfg, a) {
        Some(x) => Some(x),
        None => match number_under(cfg, b) {
            Some(x) => Some(x),
            None => number_under(cfg, c),
        },
    }
}

/// A number as a count, or another one where there is none.
pub open spec fn count_or(x: Option<Real>, other: usize) -> usize {
    match x {
        Some(r) => r.word() as usize,
        None => other,
    }
}

/// A number, or another one where there is none.
pub open spec fn real_or(x: Option<Real>, other: u64) -> Real {
    match x {
        Some(r) => r,
        None => Real::Bits(other),
    }
}

/// The flag under a key.
pub open spec fn flag_under(cfg: JsonV, key: Seq<char>) -> Option<bool> {
    match cfg.get(key) {
        Some(v) => v.as_bool(),
        None => None,
    }
}

fn num(cfg: &Json, key: &str) -> (r: Option<Real>)
    ensures
        r == number_under(cfg@, key@),
{
    match cfg.get(key) {
        Some(v) => v.as_real(),
        None => None,
    }
}

fn num_of(cfg: &Json, a: &str, b: &str, c: &str) -> (r: Option<Real>)
    ensures
        r == number_among(cfg@, a@, b@, c@),
{
    match num(cfg, a) {
        Some(x) => Some(x),
        None => match num(cfg, b) {
            Some(x) => Some(x),
            None => num(cfg, c),
        },
    }
}

fn or_count(x: Option<Real>, other: usize) -> (r: usize)
    ensures
        r == count_or(x, other),
{
    match x {
        Some(r) => #[verifier::truncate]
        (r.to_word() as usize),
        None => other,
    }
}

fn or_real(x: Option<Real>, other: u64) -> (r: Real)
    ensures
        r == real_or(x, other),
{
    match x {
        Some(r) => r,
        None => Real::Bits(other),
    }
}

fn flag(cfg: &Json, key: &str) -> (r: Option<bool>)
    ensures
        r == flag_under(cfg@, key@),
{
    match cfg.get(key) {
        Some(v) => v.as_bool(),
        None => None,
    }
}

/// The token numbers among the first `n` values.
pub open spec fn tokens_among(v: Seq<JsonV>, n: nat) -> Seq<u32>
    decreases n,
{
    if n == 0 || n > v.len() {
        Seq::empty()
    } else {
        let rest = tokens_among(v, (n - 1) as nat);
        match v[n - 1].as_u64() {
            Some(t) => rest.push(t as u32),
            None => rest,
        }
    }
}

/// The token numbers under a key: one, or a list of them.
pub open spec fn tokens_under(cfg: JsonV, key: Seq<char>) -> Seq<u32> {
    match cfg.get(key) {
        Some(JsonV::Num(n)) => match JsonV::Num(n).as_u64() {
            Some(t) => seq![t as u32],
            None => Seq::empty(),
        },
        Some(JsonV::Arr(v)) => tokens_among(v, v.len()),
        _ => Seq::empty(),
    }
}

fn ids(cfg: &Json, key: &str) -> (r: Vec<u32>)
    ensures
        r@ == tokens_under(cfg@, key@),
{
    let mut out: Vec<u32> = Vec::new();
    match cfg.get(key) {
        None => {},
        Some(v) => match v {
            Json::Num(_) => {
                if let Some(t) = v.as_u64() {
                    out.push(
                        #[verifier::truncate]
                        (t as u32),
                    );
                }
            },
            Json::Arr(_) => {
                let n: usize = v.count();
                let ghost e = elements(v@);
                let mut i: usize = 0;
                while i < n
                    invariant
                        i <= n,
                        n == e.len(),
                        e == elements(v@),
                        out@ == tokens_among(e, i as nat),
                    decreases n - i,
                {
                    if let Some(t) = v.item(i).as_u64() {
                        out.push(
                            #[verifier::truncate]
                            (t as u32),
                        );
                    }
                    i += 1;
                }
            },
            _ => {},
        },
    }
    assert(out@ =~= tokens_under(cfg@, key@));
    out
}

/// The per-layer prefix in a name of layer zero, if it has one.
pub open spec fn prefix_in(name: Seq<char>) -> Option<Seq<char>> {
    match first_at(name, 0, ".0."@) {
        None => None,
        Some(i) => {
            let head = name.subrange(0, i + 1);
            if ends_in(head, "layers."@) || ends_in(head, "h."@) || ends_in(head, "blocks."@) {
                Some(head)
            } else {
                None
            }
        },
    }
}

/// The per-layer prefix in the first name from `i` on that has one.
pub open spec fn prefix_from(t: Seq<(Seq<char>, Rec)>, i: int) -> Seq<char>
    decreases t.len() - i,
{
    if i < 0 || i >= t.len() {
        "model.layers."@
    } else {
        match prefix_in(t[i].0) {
            Some(p) => p,
            None => prefix_from(t, i + 1),
        }
    }
}

/// Detect the shared per-layer tensor prefix (`model.layers.`, `layers.`, ...).
fn detect_prefix(store: &Store) -> (r: String)
    ensures
        r@ == prefix_from(store.listed(), 0),
{
    let n: usize = store.len();
    let ghost t = store.listed();
    proof {
        reveal_strlit(".0.");
    }
    let mut i: usize = 0;
    while i < n
        invariant
            i <= n,
            n == t.len(),
            t == store.listed(),
            ".0."@.len() == 3,
            prefix_from(t, 0) == prefix_from(t, i as int),
        decreases n - i,
    {
        let c = chars_of(store.name_at(i));
        if let Some(k) = find(c.as_slice(), 0, ".0.") {
            let head = substring(c.as_slice(), 0, k + 1);
            if ends_with(head.as_str(), "layers.") || ends_with(head.as_str(), "h.") || ends_with(
                head.as_str(),
                "blocks.",
            ) {
                return head;
            }
        }
        i += 1;
    }
    "model.layers.".to_owned()
}

/// The part of a config that says how rotary embeddings are stretched. Recent
/// configs moved everything under `rope_parameters`; older ones split `rope_theta`
/// from a `rope_scaling` sub-object.
pub open spec fn scaling_of(cfg: JsonV) -> JsonV {
    if cfg.field("rope_scaling"@) is Obj {
        cfg.field("rope_scaling"@)
    } else {
        cfg.field("rope_parameters"@)
    }
}

/// The scheme that a config names.
pub open spec fn scheme_of(scaling: JsonV) -> Seq<char> {
    match scaling.field("rope_type"@).as_str() {
        Some(s) => s,
        None => match scaling.field("type"@).as_str() {
            Some(s) => s,
            None => ""@,
        },
    }
}

/// The kind of stretching: none where the factor stretches nothing, whatever it is
/// called. A factor with no type named is the original position-interpolation
/// paper, which is what `linear` means.
pub open spec fn kind_of(named: Seq<char>, factor: Real) -> RopeKind {
    if !factor.stretches() {
        RopeKind::Plain
    } else if named == "dynamic"@ || named == "ntk"@ {
        RopeKind::Dynamic
    } else if named == "yarn"@ {
        RopeKind::Yarn
    } else if named == "llama3"@ {
        RopeKind::Llama3
    } else {
        RopeKind::Linear
    }
}

/// The rope settings of a config.
pub open spec fn rope_in(cfg: JsonV, max_ctx: usize) -> Rope {
    let s = scaling_of(cfg);
    let factor = real_or(s.field("factor"@).as_real(), 0x3ff0_0000_0000_0000);
    Rope {
        kind: kind_of(scheme_of(s), factor),
        theta: match number_under(cfg, "rope_theta"@) {
            Some(t) => t,
            None => real_or(cfg.field("rope_parameters"@).field("rope_theta"@).as_real(), 0x40c3_8800_0000_0000),
        },
        factor,
        original_ctx: match s.field("original_max_position_embeddings"@).as_u64() {
            Some(n) => n as usize,
            None => max_ctx,
        },
        low_freq_factor: real_or(s.field("low_freq_factor"@).as_real(), 0x3ff0_0000_0000_0000),
        high_freq_factor: real_or(s.field("high_freq_factor"@).as_real(), 0x4010_0000_0000_0000),
        beta_fast: real_or(s.field("beta_fast"@).as_real(), 0x4040_0000_0000_0000),
        beta_slow: real_or(s.field("beta_slow"@).as_real(), 0x3ff0_0000_0000_0000),
        attn_factor: real_or(s.field("attention_factor"@).as_real(), 0x3ff0_0000_0000_0000),
        mscale: real_or(s.field("mscale"@).as_real(), 0),
        mscale_all_dim: real_or(s.field("mscale_all_dim"@).as_real(), 0),
    }
}

/// Read the rope settings, wherever this generation of configs keeps them.
pub fn rope_of(cfg: &Json, max_ctx: usize) -> (r: Rope)
    ensures
        r == rope_in(cfg@, max_ctx),
{
    let s: &Json = match cfg.field("rope_scaling") {
        Json::Obj(_) => cfg.field("rope_scaling"),
        _ => cfg.field("rope_parameters"),
    };
    let factor: Real = or_real(s.field("factor").as_real(), 0x3ff0_0000_0000_0000);
    let named: &str = match s.field("rope_type").as_str() {
        Some(t) => t,
        None => match s.field("type").as_str() {
            Some(t) => t,
            None => "",
        },
    };
    let kind: RopeKind = if !factor.is_stretch() {
        RopeKind::Plain
    } else if same(named, "dynamic") || same(named, "ntk") {
        RopeKind::Dynamic
    } else if same(named, "yarn") {
        RopeKind::Yarn
    } else if same(named, "llama3") {
        RopeKind::Llama3
    } else {
        RopeKind::Linear
    };
    Rope {
        kind,
        theta: match num(cfg, "rope_theta") {
            Some(t) => t,
            None => or_real(cfg.field("rope_parameters").field("rope_theta").as_real(), 0x40c3_8800_0000_0000),
        },
        factor,
        original_ctx: match s.field("original_max_position_embeddings").as_u64() {
            Some(n) => #[verifier::truncate]
            (n as usize),
            None => max_ctx,
        },
        low_freq_factor: or_real(s.field("low_freq_factor").as_real(), 0x3ff0_0000_0000_0000),
        high_freq_factor: or_real(s.field("high_freq_factor").as_real(), 0x4010_0000_0000_0000),
        beta_fast: or_real(s.field("beta_fast").as_real(), 0x4040_0000_0000_0000),
        beta_slow: or_real(s.field("beta_slow").as_real(), 0x3ff0_0000_0000_0000),
        attn_factor: or_real(s.field("attention_factor").as_real(), 0x3ff0_0000_0000_0000),
        mscale: or_real(s.field("mscale").as_real(), 0),
        mscale_all_dim: or_real(s.field("mscale_all_dim").as_real(), 0),
    }
}

/// How far back local layers see, where a config says so.
pub open spec fn window_size(cfg: JsonV) -> Option<u32> {
    match number_among(cfg, "sliding_window"@, "attention_window_size"@, "attention_window_size"@) {
        None => None,
        Some(r) => if r.word() == 0 {
            None
        } else if r.word() > u32::MAX {
            Some(u32::MAX)
        } else {
            Some(r.word() as u32)
        },
    }
}

/// Whether layer `l` attends locally. Four conventions exist and they disagree, so
/// all four are read: an explicit `layer_types` list, a `sliding_window_pattern`
/// where every Nth layer is global, Qwen's `use_sliding_window` with a
/// `max_window_layers` cutoff, and a bare `sliding_window` meaning every layer.
pub open spec fn local_layer(cfg: JsonV, l: int) -> bool {
    match cfg.field("layer_types"@) {
        JsonV::Arr(v) => l < v.len() && (v[l].as_str() == Some("sliding_attention"@) || v[l].as_str() == Some(
            "local_attention"@,
        )),
        _ => match cfg.field("sliding_window_pattern"@).as_u64() {
            Some(p) if p > 1 => (l + 1) % (p as int) != 0,
            _ => if cfg.field("use_sliding_window"@).as_bool() == Some(false) {
                false
            } else {
                match cfg.field("max_window_layers"@).as_u64() {
                    Some(from) => l >= from,
                    None => true,
                }
            },
        },
    }
}

/// The attention window of each layer.
pub open spec fn windows_in(cfg: JsonV, layers: nat) -> Seq<Option<u32>> {
    Seq::new(
        layers,
        |l: int|
            if window_size(cfg) is Some && local_layer(cfg, l) {
                window_size(cfg)
            } else {
                None
            },
    )
}

fn is_local(cfg: &Json, l: usize) -> (r: bool)
    ensures
        r == local_layer(cfg@, l as int),
{
    let types: &Json = cfg.field("layer_types");
    match types {
        Json::Arr(_) => l < types.count() && (types.item(l).is_str("sliding_attention") || types.item(l).is_str(
            "local_attention",
        )),
        _ => {
            if let Some(p) = cfg.field("sliding_window_pattern").as_u64() {
                if p > 1 {
                    // The next layer's number divides exactly where this one leaves
                    // the largest remainder, and this form cannot overflow.
                    proof {
                        let x = l as int;
                        let y = p as int;
                        assert((x + 1) % y == 0 <==> x % y == y - 1) by (nonlinear_arith)
                            requires
                                x >= 0,
                                y > 1,
                        ;
                    }
                    return (l as u64 % p) != p - 1;
                }
            }
            if let Some(false) = cfg.field("use_sliding_window").as_bool() {
                return false;
            }
            match cfg.field("max_window_layers").as_u64() {
                Some(from) => l as u64 >= from,
                None => true,
            }
        },
    }
}

/// Which layers attend locally, and how far back.
pub fn windows_of(cfg: &Json, layers: usize) -> (r: Vec<Option<u32>>)
    ensures
        r@ == windows_in(cfg@, layers as nat),
{
    let w: Option<u32> = match num_of(cfg, "sliding_window", "attention_window_size", "attention_window_size") {
        None => None,
        Some(r) => {
            let n: u64 = r.to_word();
            if n == 0 {
                None
            } else if n > u32::MAX as u64 {
                Some(u32::MAX)
            } else {
                Some(n as u32)
            }
        },
    };
    let mut out: Vec<Option<u32>> = Vec::new();
    let mut l: usize = 0;
    while l < layers
        invariant
            l <= layers,
            w == window_size(cfg@),
            out@ == windows_in(cfg@, l as nat),
        decreases layers - l,
    {
        if w.is_some() && is_local(cfg, l) {
            out.push(w);
        } else {
            out.push(None);
        }
        l += 1;
        assert(out@ =~= windows_in(cfg@, l as nat));
    }
    out
}

/// What a model is.
#[derive(Debug)]
pub struct Spec {
    pub arch: String,
    pub hidden: usize,
    pub layers: usize,
    pub heads: usize,
    pub kv_heads: usize,
    pub head_dim: usize,
    pub vocab: usize,
    pub eps: Real,
    pub rope: Rope,
    /// Attention window per layer, or `None` where a layer sees everything.
    /// Modern checkpoints alternate local and global layers, and which is which
    /// is declared rather than inferable from the weights.
    pub windows: Vec<Option<u32>>,
    pub max_ctx: usize,
    pub tie: bool,
    pub qk_norm: bool,
    pub mla: Option<Mla>,
    /// Routed experts per MoE layer (0 for a fully dense checkpoint).
    pub experts: usize,
    pub top_k: usize,
    pub norm_topk: bool,
    /// Sigmoid gating (`scoring_func: sigmoid`) instead of softmax.
    pub sigmoid: bool,
    pub routed_scale: Real,
    pub n_group: usize,
    pub topk_group: usize,
    /// Prefix shared by per-layer tensor names, e.g. `model.layers.`.
    pub prefix: String,
    pub eos: Vec<u32>,
    pub bos: Option<u32>,
}

/// What a [`Spec`] holds.
#[verifier::ext_equal]
pub struct SpecV {
    pub arch: Seq<char>,
    pub hidden: usize,
    pub layers: usize,
    pub heads: usize,
    pub kv_heads: usize,
    pub head_dim: usize,
    pub vocab: usize,
    pub eps: Real,
    pub rope: Rope,
    pub windows: Seq<Option<u32>>,
    pub max_ctx: usize,
    pub tie: bool,
    pub qk_norm: bool,
    pub mla: Option<Mla>,
    pub experts: usize,
    pub top_k: usize,
    pub norm_topk: bool,
    pub sigmoid: bool,
    pub routed_scale: Real,
    pub n_group: usize,
    pub topk_group: usize,
    pub prefix: Seq<char>,
    pub eos: Seq<u32>,
    pub bos: Option<u32>,
}

impl View for Spec {
    type V = SpecV;

    open spec fn view(&self) -> SpecV {
        SpecV {
            arch: self.arch@,
            hidden: self.hidden,
            layers: self.layers,
            heads: self.heads,
            kv_heads: self.kv_heads,
            head_dim: self.head_dim,
            vocab: self.vocab,
            eps: self.eps,
            rope: self.rope,
            windows: self.windows@,
            max_ctx: self.max_ctx,
            tie: self.tie,
            qk_norm: self.qk_norm,
            mla: self.mla,
            experts: self.experts,
            top_k: self.top_k,
            norm_topk: self.norm_topk,
            sigmoid: self.sigmoid,
            routed_scale: self.routed_scale,
            n_group: self.n_group,
            topk_group: self.topk_group,
            prefix: self.prefix@,
            eos: self.eos@,
            bos: self.bos,
        }
    }
}

/// Why a checkpoint cannot be described.
#[derive(Clone, Copy, PartialEq, Eq, Debug, Structural)]
pub enum Lack {
    Embedding,
    /// The config does not say how many attention heads there are.
    Heads,
    /// The config says that there are no attention heads, or none of any width.
    NoHeads,
    Query,
    /// The latent projection is narrower than its rotary part.
    Latent,
}

impl Lack {
    /// What is missing, in words.
    pub open spec fn spelled(self) -> Seq<char> {
        match self {
            Lack::Embedding => "no embedding tensor (looked for model.embed_tokens.weight)"@,
            Lack::Heads => "config lacks num_attention_heads"@,
            Lack::NoHeads => "config declares no attention heads"@,
            Lack::Query => "no self_attn.q_proj.weight in layer 0"@,
            Lack::Latent => "kv_a_proj_with_mqa is narrower than qk_rope_head_dim"@,
        }
    }

    /// What is missing, in words.
    pub fn message(self) -> (r: &'static str)
        ensures
            r@ == self.spelled(),
    {
        match self {
            Lack::Embedding => "no embedding tensor (looked for model.embed_tokens.weight)",
            Lack::Heads => "config lacks num_attention_heads",
            Lack::NoHeads => "config declares no attention heads",
            Lack::Query => "no self_attn.q_proj.weight in layer 0",
            Lack::Latent => "kv_a_proj_with_mqa is narrower than qk_rope_head_dim",
        }
    }
}

/// The name of a tensor of a layer.
pub open spec fn in_layer(prefix: Seq<char>, l: nat, suffix: Seq<char>) -> Seq<char> {
    prefix + decimal_of(l) + "."@ + suffix
}

/// Rows and columns of a whole tensor, where it can be read.
pub open spec fn extent(s: Store, name: Seq<char>) -> Option<(usize, usize)> {
    if s.readable(name) {
        Some((s.model().height(name) as usize, s.model().index[name].cols))
    } else {
        None
    }
}

/// Rows and columns of the embedding.
pub open spec fn embedding(s: Store) -> Option<(usize, usize)> {
    match extent(s, "model.embed_tokens.weight"@) {
        Some(p) => Some(p),
        None => match extent(s, "embed_tokens.weight"@) {
            Some(p) => Some(p),
            None => extent(s, "transformer.wte.weight"@),
        },
    }
}

/// Whether some name belongs to a layer.
pub open spec fn populated(t: Seq<(Seq<char>, Rec)>, prefix: Seq<char>, l: nat) -> bool {
    exists|i: int| 0 <= i < t.len() && is_at((#[trigger] t[i]).0, 0, in_layer(prefix, l, ""@))
}

/// The first layer from `l` on without a name. There are no more layers with names
/// than names, so `left` bounds the search.
pub open spec fn layers_from(t: Seq<(Seq<char>, Rec)>, prefix: Seq<char>, l: nat, left: nat) -> nat
    decreases left,
{
    if left == 0 || !populated(t, prefix, l) {
        l
    } else {
        layers_from(t, prefix, l + 1, (left - 1) as nat)
    }
}

/// How many layers there are: as the config says, or as the names show.
pub open spec fn layers_of(s: Store, cfg: JsonV, prefix: Seq<char>) -> usize {
    match number_among(cfg, "num_hidden_layers"@, "n_layers"@, "n_layer"@) {
        Some(r) => r.word() as usize,
        None => layers_from(s.listed(), prefix, 0, s.listed().len()) as usize,
    }
}

/// The experts of a layer that stores them as a stack: one fused stack, or one per
/// projection.
pub open spec fn stack_in(s: StoreV, prefix: Seq<char>, l: nat) -> Option<usize> {
    let a = in_layer(prefix, l, "mlp.experts.gate_up_proj"@);
    let b = in_layer(prefix, l, "mlp.experts.gate_proj"@);
    let c = in_layer(prefix, l, "mlp.experts.down_proj"@);
    let e = if s.index.dom().contains(a) {
        s.index[a].slabs
    } else if s.index.dom().contains(b) {
        s.index[b].slabs
    } else if s.index.dom().contains(c) {
        s.index[c].slabs
    } else {
        0
    };
    if e > 1 {
        Some(e)
    } else {
        None
    }
}

/// The experts of the first layer from `l` on that stores them as a stack.
pub open spec fn stack_from(s: StoreV, prefix: Seq<char>, l: int, layers: int) -> Option<usize>
    decreases layers - l,
{
    if l < 0 || l >= layers {
        None
    } else {
        match stack_in(s, prefix, l as nat) {
            Some(e) => Some(e),
            None => stack_from(s, prefix, l + 1, layers),
        }
    }
}

/// Whether layer `l` has a tensor of expert `e`.
pub open spec fn single_in(s: StoreV, prefix: Seq<char>, l: nat, e: nat) -> bool {
    s.index.dom().contains(in_layer(prefix, l, "mlp.experts."@ + decimal_of(e) + ".down_proj.weight"@))
        || s.index.dom().contains(
        in_layer(prefix, l, "block_sparse_moe.experts."@ + decimal_of(e) + ".w2.weight"@),
    )
}

/// Whether one of the first two layers has a tensor of expert `e`.
pub open spec fn single(s: StoreV, prefix: Seq<char>, layers: int, e: nat) -> bool {
    (layers > 0 && single_in(s, prefix, 0, e)) || (layers > 1 && single_in(s, prefix, 1, e))
}

/// The first expert from `e` on without a tensor. There are no more experts than
/// tensors, so `left` bounds the search.
pub open spec fn singles_from(s: StoreV, prefix: Seq<char>, layers: int, e: nat, left: nat) -> nat
    decreases left,
{
    if left == 0 || !single(s, prefix, layers, e) {
        e
    } else {
        singles_from(s, prefix, layers, e + 1, (left - 1) as nat)
    }
}

/// How many experts a layer has. The count comes from the checkpoint rather than the
/// config, so a checkpoint whose config disagrees with its weights still loads.
pub open spec fn experts_of(s: Store, prefix: Seq<char>, layers: int) -> usize {
    match stack_from(s.model(), prefix, 0, layers) {
        Some(e) => e,
        None => singles_from(s.model(), prefix, layers, 0, s.listed().len()) as usize,
    }
}

/// The dimensions of latent attention, where layer zero has its projection.
pub open spec fn latent(s: Store, cfg: JsonV, prefix: Seq<char>) -> Result<Option<Mla>, Lack> {
    match extent(s, in_layer(prefix, 0, "self_attn.kv_a_proj_with_mqa.weight"@)) {
        None => Ok(None),
        Some((rows, _)) => {
            let qk_rope = count_or(number_under(cfg, "qk_rope_head_dim"@), 64);
            let stated = number_under(cfg, "kv_lora_rank"@);
            if stated is None && rows < qk_rope {
                Err(Lack::Latent)
            } else {
                Ok(
                    Some(
                        Mla {
                            q_lora: count_or(number_under(cfg, "q_lora_rank"@), 0),
                            kv_lora: count_or(stated, (rows - qk_rope) as usize),
                            qk_nope: count_or(number_under(cfg, "qk_nope_head_dim"@), 128),
                            qk_rope,
                            v_head: count_or(number_under(cfg, "v_head_dim"@), 128),
                        },
                    ),
                )
            }
        },
    }
}

/// The width of a head and the number of key-value heads.
pub open spec fn head_shape(
    s: Store,
    cfg: JsonV,
    prefix: Seq<char>,
    heads: usize,
    mla: Option<Mla>,
) -> Result<(usize, usize), Lack> {
    match mla {
        Some(m) => Ok((m.qk_rope, heads)),
        None => match extent(s, in_layer(prefix, 0, "self_attn.q_proj.weight"@)) {
            None => Err(Lack::Query),
            Some((rows, _)) => if heads == 0 {
                Err(Lack::NoHeads)
            } else {
                let hd = count_or(number_under(cfg, "head_dim"@), (rows as int / heads as int) as usize);
                match extent(s, in_layer(prefix, 0, "self_attn.k_proj.weight"@)) {
                    None => Ok((hd, heads)),
                    Some((k, _)) => if hd == 0 {
                        Err(Lack::NoHeads)
                    } else {
                        let kv = k as int / hd as int;
                        Ok(
                            (
                                hd,
                                (if kv < 1 {
                                    1
                                } else {
                                    kv
                                }) as usize,
                            ),
                        )
                    },
                }
            },
        },
    }
}

/// The first element of an array, or null.
pub open spec fn first_of(v: JsonV) -> JsonV {
    if elements(v).len() > 0 {
        elements(v)[0]
    } else {
        JsonV::Null
    }
}

/// What the config calls the architecture.
pub open spec fn arch_of(cfg: JsonV) -> Seq<char> {
    match first_of(cfg.field("architectures"@)).as_str() {
        Some(a) => a,
        None => match cfg.field("model_type"@).as_str() {
            Some(a) => a,
            None => "unknown"@,
        },
    }
}

/// Whether routing scores are sigmoids: as the config says, or as a correction bias shows.
pub open spec fn sigmoid_gate(s: StoreV, cfg: JsonV, prefix: Seq<char>) -> bool {
    cfg.field("scoring_func"@).as_str() == Some("sigmoid"@) || s.index.dom().contains(
        in_layer(prefix, 0, "mlp.gate.e_score_correction_bias"@),
    )
}

/// A model, once its attention is known.
pub open spec fn described_model(
    s: Store,
    cfg: JsonV,
    prefix: Seq<char>,
    embed: (usize, usize),
    heads: usize,
    mla: Option<Mla>,
    shape: (usize, usize),
) -> SpecV {
    let layers = layers_of(s, cfg, prefix);
    let max_ctx = count_or(number_under(cfg, "max_position_embeddings"@), 8192);
    let bos = tokens_under(cfg, "bos_token_id"@);
    SpecV {
        arch: arch_of(cfg),
        hidden: embed.1,
        layers,
        heads,
        kv_heads: shape.1,
        head_dim: shape.0,
        vocab: embed.0,
        eps: real_or(
            number_among(cfg, "rms_norm_eps"@, "layer_norm_eps"@, "layer_norm_eps"@),
            0x3eb0_c6f7_a0b5_ed8d,
        ),
        rope: rope_in(cfg, max_ctx),
        windows: windows_in(cfg, layers as nat),
        max_ctx,
        tie: flag_under(cfg, "tie_word_embeddings"@) == Some(true) || !s.model().index.dom().contains(
            "lm_head.weight"@,
        ),
        qk_norm: s.model().index.dom().contains(in_layer(prefix, 0, "self_attn.q_norm.weight"@)),
        mla,
        experts: experts_of(s, prefix, layers as int),
        top_k: count_or(number_among(cfg, "num_experts_per_tok"@, "moe_top_k"@, "top_k"@), 2),
        norm_topk: match flag_under(cfg, "norm_topk_prob"@) {
            Some(b) => b,
            None => match flag_under(cfg, "norm_expert_prob"@) {
                Some(b) => b,
                None => true,
            },
        },
        sigmoid: sigmoid_gate(s.model(), cfg, prefix),
        routed_scale: real_or(number_under(cfg, "routed_scaling_factor"@), 0x3ff0_0000_0000_0000),
        n_group: count_or(number_under(cfg, "n_group"@), 1),
        topk_group: count_or(number_under(cfg, "topk_group"@), 1),
        prefix,
        eos: tokens_under(cfg, "eos_token_id"@),
        bos: if bos.len() > 0 {
            Some(bos[0])
        } else {
            None
        },
    }
}

/// The model that a store's config and tensors amount to.
pub open spec fn derived(s: Store) -> Result<SpecV, Lack> {
    let cfg = s.model().config;
    let prefix = prefix_from(s.listed(), 0);
    match (embedding(s), number_among(cfg, "num_attention_heads"@, "n_heads"@, "n_head"@)) {
        (None, _) => Err(Lack::Embedding),
        (Some(_), None) => Err(Lack::Heads),
        (Some(embed), Some(h)) => match latent(s, cfg, prefix) {
            Err(e) => Err(e),
            Ok(mla) => match head_shape(s, cfg, prefix, h.word() as usize, mla) {
                Err(e) => Err(e),
                Ok(shape) => Ok(described_model(s, cfg, prefix, embed, h.word() as usize, mla, shape)),
            },
        },
    }
}

fn layer_name(prefix: &str, l: usize, suffix: &str) -> (r: String)
    ensures
        r@ == in_layer(prefix@, l as nat, suffix@),
{
    let head = join3(prefix, decimal(l as u64).as_str(), ".");
    join(head.as_str(), suffix)
}

fn measure(store: &Store, name: &str) -> (r: Option<(usize, usize)>)
    requires
        store.valid(),
    ensures
        r == extent(*store, name@),
{
    match store.get(name) {
        Some(q) => Some((q.rows, q.cols)),
        None => None,
    }
}

fn measure_embedding(store: &Store) -> (r: Option<(usize, usize)>)
    requires
        store.valid(),
    ensures
        r == embedding(*store),
{
    match measure(store, "model.embed_tokens.weight") {
        Some(p) => Some(p),
        None => match measure(store, "embed_tokens.weight") {
            Some(p) => Some(p),
            None => measure(store, "transformer.wte.weight"),
        },
    }
}

fn has_names(store: &Store, prefix: &str, l: usize) -> (r: bool)
    ensures
        r == populated(store.listed(), prefix@, l as nat),
{
    let head = layer_name(prefix, l, "");
    let n: usize = store.len();
    let ghost t = store.listed();
    let mut i: usize = 0;
    while i < n
        invariant
            i <= n,
            n == t.len(),
            t == store.listed(),
            head@ == in_layer(prefix@, l as nat, ""@),
            forall|k: int| 0 <= k < i ==> !is_at((#[trigger] t[k]).0, 0, head@),
        decreases n - i,
    {
        let c = chars_of(store.name_at(i));
        if at(c.as_slice(), 0, head.as_str()) {
            assert(is_at(t[i as int].0, 0, head@));
            return true;
        }
        i += 1;
    }
    false
}

fn count_layers(store: &Store, cfg: &Json, prefix: &str) -> (r: usize)
    ensures
        r == layers_of(*store, cfg@, prefix@),
{
    match num_of(cfg, "num_hidden_layers", "n_layers", "n_layer") {
        Some(r) => #[verifier::truncate]
        (r.to_word() as usize),
        None => {
            let n: usize = store.len();
            let ghost t = store.listed();
            let mut l: usize = 0;
            while l < n && has_names(store, prefix, l)
                invariant
                    l <= n,
                    n == t.len(),
                    t == store.listed(),
                    layers_from(t, prefix@, 0, n as nat) == layers_from(t, prefix@, l as nat, (n - l) as nat),
                decreases n - l,
            {
                l += 1;
            }
            l
        },
    }
}

fn find_stack(store: &Store, prefix: &str, l: usize) -> (r: Option<usize>)
    requires
        store.valid(),
    ensures
        r == stack_in(store.model(), prefix@, l as nat),
{
    let e: usize = match store.shape(layer_name(prefix, l, "mlp.experts.gate_up_proj").as_str()) {
        Some(p) => p.0,
        None => match store.shape(layer_name(prefix, l, "mlp.experts.gate_proj").as_str()) {
            Some(p) => p.0,
            None => match store.shape(layer_name(prefix, l, "mlp.experts.down_proj").as_str()) {
                Some(p) => p.0,
                None => 0,
            },
        },
    };
    if e > 1 {
        Some(e)
    } else {
        None
    }
}

fn has_single(store: &Store, prefix: &str, l: usize, e: usize) -> (r: bool)
    requires
        store.valid(),
    ensures
        r == single_in(store.model(), prefix@, l as nat, e as nat),
{
    let d = decimal(e as u64);
    let a = join3("mlp.experts.", d.as_str(), ".down_proj.weight");
    let b = join3("block_sparse_moe.experts.", d.as_str(), ".w2.weight");
    store.has(layer_name(prefix, l, a.as_str()).as_str()) || store.has(layer_name(prefix, l, b.as_str()).as_str())
}

fn has_expert(store: &Store, prefix: &str, layers: usize, e: usize) -> (r: bool)
    requires
        store.valid(),
    ensures
        r == single(store.model(), prefix@, layers as int, e as nat),
{
    (layers > 0 && has_single(store, prefix, 0, e)) || (layers > 1 && has_single(store, prefix, 1, e))
}

fn count_experts(store: &Store, prefix: &str, layers: usize) -> (r: usize)
    requires
        store.valid(),
    ensures
        r == experts_of(*store, prefix@, layers as int),
{
    let mut l: usize = 0;
    while l < layers
        invariant
            l <= layers,
            store.valid(),
            stack_from(store.model(), prefix@, 0, layers as int) == stack_from(
                store.model(),
                prefix@,
                l as int,
                layers as int,
            ),
        decreases layers - l,
    {
        if let Some(e) = find_stack(store, prefix, l) {
            return e;
        }
        l += 1;
    }
    let n: usize = store.len();
    let mut e: usize = 0;
    while e < n && has_expert(store, prefix, layers, e)
        invariant
            e <= n,
            store.valid(),
            singles_from(store.model(), prefix@, layers as int, 0, n as nat) == singles_from(
                store.model(),
                prefix@,
                layers as int,
                e as nat,
                (n - e) as nat,
            ),
        decreases n - e,
    {
        e += 1;
    }
    e
}

fn find_latent(store: &Store, cfg: &Json, prefix: &str) -> (r: Result<Option<Mla>, Lack>)
    requires
        store.valid(),
    ensures
        r == latent(*store, cfg@, prefix@),
{
    let rows: usize = match measure(
        store,
        layer_name(prefix, 0, "self_attn.kv_a_proj_with_mqa.weight").as_str(),
    ) {
        None => return Ok(None),
        Some(p) => p.0,
    };
    let qk_rope: usize = or_count(num(cfg, "qk_rope_head_dim"), 64);
    let kv_lora: usize = match num(cfg, "kv_lora_rank") {
        Some(r) => #[verifier::truncate]
        (r.to_word() as usize),
        None => {
            if rows < qk_rope {
                return Err(Lack::Latent);
            }
            rows - qk_rope
        },
    };
    Ok(
        Some(
            Mla {
                q_lora: or_count(num(cfg, "q_lora_rank"), 0),
                kv_lora,
                qk_nope: or_count(num(cfg, "qk_nope_head_dim"), 128),
                qk_rope,
                v_head: or_count(num(cfg, "v_head_dim"), 128),
            },
        ),
    )
}

fn find_heads(store: &Store, cfg: &Json, prefix: &str, heads: usize, mla: Option<Mla>) -> (r: Result<
    (usize, usize),
    Lack,
>)
    requires
        store.valid(),
    ensures
        r == head_shape(*store, cfg@, prefix@, heads, mla),
{
    if let Some(m) = mla {
        return Ok((m.qk_rope, heads));
    }
    let rows: usize = match measure(store, layer_name(prefix, 0, "self_attn.q_proj.weight").as_str()) {
        None => return Err(Lack::Query),
        Some(p) => p.0,
    };
    if heads == 0 {
        return Err(Lack::NoHeads);
    }
    let hd: usize = or_count(num(cfg, "head_dim"), rows / heads);
    match measure(store, layer_name(prefix, 0, "self_attn.k_proj.weight").as_str()) {
        None => Ok((hd, heads)),
        Some((k, _)) => {
            if hd == 0 {
                return Err(Lack::NoHeads);
            }
            let kv: usize = k / hd;
            Ok(
                (
                    hd,
                    if kv < 1 {
                        1
                    } else {
                        kv
                    },
                ),
            )
        },
    }
}

impl Spec {
    /// Derive a spec from a store's config plus the shapes actually present.
    pub fn derive(store: &Store) -> (r: Result<Spec, Lack>)
        requires
            store.valid(),
        ensures
            match r {
                Ok(s) => derived(*store) == Ok::<SpecV, Lack>(s@),
                Err(e) => derived(*store) == Err::<SpecV, Lack>(e),
            },
    {
        let cfg: &Json = store.config();
        let prefix = detect_prefix(store);
        let embed: (usize, usize) = match measure_embedding(store) {
            None => return Err(Lack::Embedding),
            Some(p) => p,
        };
        let heads: usize = match num_of(cfg, "num_attention_heads", "n_heads", "n_head") {
            None => return Err(Lack::Heads),
            Some(r) => #[verifier::truncate]
            (r.to_word() as usize),
        };
        let mla: Option<Mla> = match find_latent(store, cfg, prefix.as_str()) {
            Err(e) => return Err(e),
            Ok(m) => m,
        };
        let (head_dim, kv_heads): (usize, usize) = match find_heads(store, cfg, prefix.as_str(), heads, mla) {
            Err(e) => return Err(e),
            Ok(p) => p,
        };
        let layers: usize = count_layers(store, cfg, prefix.as_str());
        let experts: usize = count_experts(store, prefix.as_str(), layers);
        let max_ctx: usize = or_count(num(cfg, "max_position_embeddings"), 8192);
        let listed: &Json = cfg.field("architectures");
        let named: Option<&str> = if listed.count() > 0 {
            listed.item(0).as_str()
        } else {
            None
        };
        let arch: String = match named {
            Some(a) => a.to_owned(),
            None => match cfg.field("model_type").as_str() {
                Some(a) => a.to_owned(),
                None => "unknown".to_owned(),
            },
        };
        let tie: bool = match flag(cfg, "tie_word_embeddings") {
            Some(true) => true,
            _ => !store.has("lm_head.weight"),
        };
        let norm_topk: bool = match flag(cfg, "norm_topk_prob") {
            Some(b) => b,
            None => match flag(cfg, "norm_expert_prob") {
                Some(b) => b,
                None => true,
            },
        };
        let sigmoid: bool = cfg.field("scoring_func").is_str("sigmoid") || store.has(
            layer_name(prefix.as_str(), 0, "mlp.gate.e_score_correction_bias").as_str(),
        );
        let qk_norm: bool = store.has(layer_name(prefix.as_str(), 0, "self_attn.q_norm.weight").as_str());
        let starts: Vec<u32> = ids(cfg, "bos_token_id");
        let bos: Option<u32> = if starts.len() > 0 {
            Some(starts[0])
        } else {
            None
        };
        let s = Spec {
            arch,
            hidden: embed.1,
            layers,
            heads,
            kv_heads,
            head_dim,
            vocab: embed.0,
            eps: or_real(num_of(cfg, "rms_norm_eps", "layer_norm_eps", "layer_norm_eps"), 0x3eb0_c6f7_a0b5_ed8d),
            rope: rope_of(cfg, max_ctx),
            windows: windows_of(cfg, layers),
            max_ctx,
            tie,
            qk_norm,
            mla,
            experts,
            top_k: or_count(num_of(cfg, "num_experts_per_tok", "moe_top_k", "top_k"), 2),
            norm_topk,
            sigmoid,
            routed_scale: or_real(num(cfg, "routed_scaling_factor"), 0x3ff0_0000_0000_0000),
            n_group: or_count(num(cfg, "n_group"), 1),
            topk_group: or_count(num(cfg, "topk_group"), 1),
            prefix,
            eos: ids(cfg, "eos_token_id"),
            bos,
        };
        Ok(s)
    }
}

/// A factor that stretches nothing disables every scheme, however it is spelled.
pub proof fn law_flat_factor_scales_nothing(named: Seq<char>, factor: Real)
    requires
        !factor.stretches(),
    ensures
        kind_of(named, factor) == RopeKind::Plain,
{
}

/// As many different places as there are below `n` are no more than `n`.
proof fn lemma_pigeonhole(f: Seq<int>, n: int)
    requires
        f.no_duplicates(),
        forall|i: int| 0 <= i < f.len() ==> 0 <= #[trigger] f[i] < n,
        n >= 0,
    ensures
        f.len() <= n,
{
    f.unique_seq_to_set();
    vstd::set_lib::lemma_int_range(0, n);
    let all = vstd::set_lib::set_int_range(0, n);
    assert(f.to_set().subset_of(all)) by {
        assert forall|x: int| f.to_set().contains(x) implies all.contains(x) by {
            let i = choose|i: int| 0 <= i < f.len() && f[i] == x;
            assert(0 <= f[i] < n);
        }
    }
    vstd::set_lib::lemma_len_subset(f.to_set(), all);
}

/// One name belongs to one layer at most.
proof fn lemma_one_layer(name: Seq<char>, prefix: Seq<char>, a: nat, b: nat)
    requires
        is_at(name, 0, in_layer(prefix, a, ""@)),
        is_at(name, 0, in_layer(prefix, b, ""@)),
    ensures
        a == b,
{
    law_decimal_reads_back(a);
    law_decimal_reads_back(b);
    reveal_strlit(".");
    reveal_strlit("");
    let x = decimal_of(a);
    let y = decimal_of(b);
    let p = prefix.len() as int;
    let u = in_layer(prefix, a, ""@);
    let v = in_layer(prefix, b, ""@);
    assert(u.len() == p + x.len() + 1 && v.len() == p + y.len() + 1);
    assert forall|k: int| 0 <= k < u.len() implies name[k] == #[trigger] u[k] by {
        assert(name.subrange(0, u.len() as int)[k] == name[k]);
    }
    assert forall|k: int| 0 <= k < v.len() implies name[k] == #[trigger] v[k] by {
        assert(name.subrange(0, v.len() as int)[k] == name[k]);
    }
    assert(u[p + x.len()] == '.' && v[p + y.len()] == '.');
    if x.len() < y.len() {
        assert(v[p + x.len()] == y[x.len() as int]);
        assert(name[p + x.len()] == u[p + x.len()]);
        assert(false);
    }
    if y.len() < x.len() {
        assert(u[p + y.len()] == x[y.len() as int]);
        assert(name[p + y.len()] == v[p + y.len()]);
        assert(false);
    }
    assert forall|k: int| 0 <= k < x.len() implies x[k] == y[k] by {
        assert(u[p + k] == x[k] && v[p + k] == y[k]);
        assert(name[p + k] == u[p + k] && name[p + k] == v[p + k]);
    }
    assert(x =~= y);
}

proof fn lemma_layers_from(t: Seq<(Seq<char>, Rec)>, prefix: Seq<char>, l: nat, left: nat)
    ensures
        ({
            let n = layers_from(t, prefix, l, left);
            &&& l <= n <= l + left
            &&& forall|k: nat| l <= k < n ==> #[trigger] populated(t, prefix, k)
            &&& n < l + left ==> !populated(t, prefix, n)
        }),
    decreases left,
{
    if left > 0 && populated(t, prefix, l) {
        lemma_layers_from(t, prefix, l + 1, (left - 1) as nat);
    }
}

/// A name of a layer.
spec fn witness(t: Seq<(Seq<char>, Rec)>, prefix: Seq<char>, l: nat) -> int {
    choose|i: int| 0 <= i < t.len() && is_at((#[trigger] t[i]).0, 0, in_layer(prefix, l, ""@))
}

/// Where the names decide, the layers counted are exactly those with names: every
/// one below the count has a name, and the one after has none.
pub proof fn law_layer_count_is_exact(t: Seq<(Seq<char>, Rec)>, prefix: Seq<char>)
    ensures
        ({
            let n = layers_from(t, prefix, 0, t.len());
            &&& forall|k: nat| k < n ==> #[trigger] populated(t, prefix, k)
            &&& !populated(t, prefix, n)
        }),
{
    lemma_layers_from(t, prefix, 0, t.len());
    let n = layers_from(t, prefix, 0, t.len());
    if populated(t, prefix, n) {
        // Every layer up to this one has a name of its own.
        let f = Seq::new(n + 1, |k: int| witness(t, prefix, k as nat));
        assert forall|k: int| 0 <= k < f.len() implies 0 <= #[trigger] f[k] < t.len() && is_at(
            t[f[k]].0,
            0,
            in_layer(prefix, k as nat, ""@),
        ) by {
            assert(populated(t, prefix, k as nat));
        }
        assert forall|a: int, b: int| 0 <= a < b < f.len() implies f[a] != f[b] by {
            if f[a] == f[b] {
                lemma_one_layer(t[f[a]].0, prefix, a as nat, b as nat);
            }
        }
        lemma_pigeonhole(f, t.len() as int);
    }
}

/// How many of the first `n` layers attend locally.
pub open spec fn local_count(w: Seq<Option<u32>>, n: nat) -> nat
    decreases n,
{
    if n == 0 || n > w.len() {
        0
    } else {
        local_count(w, (n - 1) as nat) + (if w[n - 1] is Some {
            1nat
        } else {
            0nat
        })
    }
}

/// The widest window of the first `n` layers.
pub open spec fn widest_window(w: Seq<Option<u32>>, n: nat) -> Option<u32>
    decreases n,
{
    if n == 0 || n > w.len() {
        None
    } else {
        match (widest_window(w, (n - 1) as nat), w[n - 1]) {
            (Some(a), Some(b)) => Some(
                if b >= a {
                    b
                } else {
                    a
                },
            ),
            (None, x) => x,
            (x, None) => x,
        }
    }
}

impl SpecV {
    /// The attention, in words.
    pub open spec fn attention_text(self) -> Seq<char> {
        match self.mla {
            Some(m) => "MLA(kv_lora="@ + decimal_of(m.kv_lora as nat) + ", rope="@ + (decimal_of(m.qk_rope as nat)
                + ", nope="@ + decimal_of(m.qk_nope as nat)) + (", v="@ + decimal_of(m.v_head as nat) + ")"@),
            None => "GQA("@ + decimal_of(self.heads as nat) + " q / "@ + (decimal_of(self.kv_heads as nat)
                + " kv heads, head_dim="@ + decimal_of(self.head_dim as nat)) + ")"@,
        }
    }

    /// The feed-forward part, in words.
    pub open spec fn ffn_text(self) -> Seq<char> {
        if self.experts == 0 {
            "dense"@
        } else {
            decimal_of(self.experts as nat) + " experts, top-"@ + decimal_of(self.top_k as nat) + (if self.sigmoid {
                ", sigmoid gate"@
            } else {
                ", softmax gate"@
            }) + (if self.n_group > 1 {
                ", "@ + decimal_of(self.n_group as nat) + " groups"@
            } else {
                ""@
            })
        }
    }

    /// The windows, in words, where some layer has one.
    pub open spec fn window_text(self) -> Seq<char> {
        let local = local_count(self.windows, self.windows.len());
        match widest_window(self.windows, self.windows.len()) {
            None => ""@,
            Some(w) => if local == self.layers {
                "\n  window     "@ + decimal_of(w as nat) + " on every layer"@
            } else {
                "\n  window     "@ + decimal_of(w as nat) + " on "@ + (decimal_of(local) + " of "@ + decimal_of(
                    self.layers as nat,
                )) + " layers"@
            },
        }
    }

    /// The model, in words.
    pub open spec fn summary(self, rope: Seq<char>) -> Seq<char> {
        self.arch + "\n  layers "@ + decimal_of(self.layers as nat) + ("  hidden "@ + decimal_of(self.hidden as nat)
            + "  vocab "@) + (decimal_of(self.vocab as nat) + "\n  attention  "@ + self.attention_text()) + ((
        if self.qk_norm {
            " + qk-norm"@
        } else {
            ""@
        }) + "\n  rope       "@ + rope) + (self.window_text() + "\n  ffn        "@ + self.ffn_text())
    }
}

impl Spec {
    fn attention_text(&self) -> (r: String)
        ensures
            r@ == self@.attention_text(),
    {
        match &self.mla {
            Some(m) => {
                let a = join3("MLA(kv_lora=", decimal(m.kv_lora as u64).as_str(), ", rope=");
                let b = join3(
                    decimal(m.qk_rope as u64).as_str(),
                    ", nope=",
                    decimal(m.qk_nope as u64).as_str(),
                );
                let c = join3(", v=", decimal(m.v_head as u64).as_str(), ")");
                join3(a.as_str(), b.as_str(), c.as_str())
            },
            None => {
                let a = join3("GQA(", decimal(self.heads as u64).as_str(), " q / ");
                let b = join3(
                    decimal(self.kv_heads as u64).as_str(),
                    " kv heads, head_dim=",
                    decimal(self.head_dim as u64).as_str(),
                );
                join3(a.as_str(), b.as_str(), ")")
            },
        }
    }

    fn ffn_text(&self) -> (r: String)
        ensures
            r@ == self@.ffn_text(),
    {
        if self.experts == 0 {
            return "dense".to_owned();
        }
        let a = join3(
            decimal(self.experts as u64).as_str(),
            " experts, top-",
            decimal(self.top_k as u64).as_str(),
        );
        let gate: &str = if self.sigmoid {
            ", sigmoid gate"
        } else {
            ", softmax gate"
        };
        let groups: String = if self.n_group > 1 {
            join3(", ", decimal(self.n_group as u64).as_str(), " groups")
        } else {
            "".to_owned()
        };
        join3(a.as_str(), gate, groups.as_str())
    }

    fn window_text(&self) -> (r: String)
        ensures
            r@ == self@.window_text(),
    {
        let mut local: usize = 0;
        let mut widest: Option<u32> = None;
        let mut i: usize = 0;
        while i < self.windows.len()
            invariant
                i <= self.windows@.len(),
                local <= i,
                local == local_count(self.windows@, i as nat),
                widest == widest_window(self.windows@, i as nat),
            decreases self.windows@.len() - i,
        {
            let w: Option<u32> = self.windows[i];
            if let Some(b) = w {
                local += 1;
                widest = match widest {
                    Some(a) => if b >= a {
                        Some(b)
                    } else {
                        Some(a)
                    },
                    None => Some(b),
                };
            }
            i += 1;
        }
        match widest {
            None => "".to_owned(),
            Some(w) => {
                let d = decimal(w as u64);
                if local == self.layers {
                    join3("\n  window     ", d.as_str(), " on every layer")
                } else {
                    let a = join3("\n  window     ", d.as_str(), " on ");
                    let b = join3(decimal(local as u64).as_str(), " of ", decimal(self.layers as u64).as_str());
                    join3(a.as_str(), b.as_str(), " layers")
                }
            },
        }
    }

    /// The model, in words, with its rope settings in words.
    pub fn summary(&self, rope: &str) -> (r: String)
        ensures
            r@ == self@.summary(rope@),
    {
        let a = join3(self.arch.as_str(), "\n  layers ", decimal(self.layers as u64).as_str());
        let b = join3("  hidden ", decimal(self.hidden as u64).as_str(), "  vocab ");
        let c = join3(decimal(self.vocab as u64).as_str(), "\n  attention  ", self.attention_text().as_str());
        let norm: &str = if self.qk_norm {
            " + qk-norm"
        } else {
            ""
        };
        let d = join3(norm, "\n  rope       ", rope);
        let e = join3(self.window_text().as_str(), "\n  ffn        ", self.ffn_text().as_str());
        let head = join3(a.as_str(), b.as_str(), c.as_str());
        join3(head.as_str(), d.as_str(), e.as_str())
    }
}

} // verus!
