//! The decoder: which weights it binds, which experts a token is given, and what is
//! cached. The arithmetic is done in floating point elsewhere; scores come in as
//! integers that order as the scores do, and weights as their bits.

use vstd::prelude::*;
use vstd::string::*;
use crate::bind::{bound_of, bound_shows, load_with, Bound, BoundV, Ffn, Layer, LoadFault, LoadFaultV, Mlp};
use crate::gate::Used;
use crate::index::Rec;
use crate::quant::Dt;
use crate::route::capped;
use crate::spec::{derived, Lack, Spec, SpecV};
use crate::store::{total_size, Store};
use crate::text::{decimal, decimal_of, join, join3, same};

verus! {

/// One layer's routing decision for one token.
#[derive(Debug)]
pub struct Route {
    pub pos: u32,
    pub layer: u32,
    /// Selected experts and the bits of the weight each was given, strongest first.
    pub experts: Vec<(u32, u32)>,
}

/// Recorded routing, when tracing is switched on. Dense layers contribute
/// nothing, so a layer missing from `routes` is a layer with no experts.
#[derive(Debug)]
pub struct Trace {
    /// Token id at each position the trace covers.
    pub tokens: Vec<u32>,
    pub routes: Vec<Route>,
}

/// Overrides on the router, for asking what an expert is actually for.
///
/// Routing is the one part of a sparse model that can be intervened on without
/// touching a weight: refuse an expert and see what the answer becomes, force one
/// and see what it insists on, flatten its scores and see how much the choice
/// mattered.
#[derive(Debug)]
pub struct Routing {
    /// `(layer, expert)` the router may not select. Weights renormalise over what
    /// remains, so this asks "what if this expert were unavailable" rather than
    /// "what if its output were zero".
    pub disabled: Vec<(u32, u32)>,
    /// `(layer, expert)` always selected, displacing the weakest pick.
    pub forced: Vec<(u32, u32)>,
    /// Whether the router logits are divided before gating.
    pub tempered: bool,
    /// Experts per token, overriding the checkpoint. 0 keeps its own.
    pub top_k: usize,
}

impl Default for Routing {
    fn default() -> (r: Routing)
        ensures
            r.disabled@.len() == 0,
            r.forced@.len() == 0,
            !r.tempered,
            r.top_k == 0,
    {
        Routing { disabled: Vec::new(), forced: Vec::new(), tempered: false, top_k: 0 }
    }
}

/// The experts that the first `n` entries of a list name in a layer.
pub open spec fn experts_at(v: Seq<(u32, u32)>, layer: u32, n: nat) -> Seq<usize>
    decreases n,
{
    if n == 0 || n > v.len() {
        Seq::empty()
    } else {
        let rest = experts_at(v, layer, (n - 1) as nat);
        if v[n - 1].0 == layer {
            rest.push(v[n - 1].1 as usize)
        } else {
            rest
        }
    }
}

/// The experts that a list names in a layer.
pub fn at(v: &Vec<(u32, u32)>, layer: usize) -> (r: Vec<usize>)
    ensures
        r@ == experts_at(v@, layer as u32, v@.len()),
{
    let l: u32 = #[verifier::truncate]
    (layer as u32);
    let mut out: Vec<usize> = Vec::new();
    let mut i: usize = 0;
    while i < v.len()
        invariant
            i <= v@.len(),
            out@ == experts_at(v@, l, i as nat),
        decreases v@.len() - i,
    {
        if v[i].0 == l {
            out.push(v[i].1 as usize);
        }
        i += 1;
    }
    out
}

impl Routing {
    pub open spec fn nothing(self) -> bool {
        self.disabled@.len() == 0 && self.forced@.len() == 0 && !self.tempered && self.top_k == 0
    }

    pub fn is_empty(&self) -> (r: bool)
        ensures
            r == self.nothing(),
    {
        self.disabled.len() == 0 && self.forced.len() == 0 && !self.tempered && self.top_k == 0
    }

    /// How many experts a token is given, of those the checkpoint says.
    pub fn width(&self, top_k: usize) -> (r: usize)
        ensures
            r == (if self.top_k > 0 {
                self.top_k
            } else {
                top_k
            }),
    {
        if self.top_k > 0 {
            self.top_k
        } else {
            top_k
        }
    }

    /// What is overridden, in words. The temperature is given in words, where there
    /// is one.
    pub open spec fn parts(self, temp: Seq<char>) -> Seq<Seq<char>> {
        let a = if self.disabled@.len() > 0 {
            seq![decimal_of(self.disabled@.len()) + " experts disabled"@]
        } else {
            Seq::empty()
        };
        let b = if self.forced@.len() > 0 {
            a.push(decimal_of(self.forced@.len()) + " forced"@)
        } else {
            a
        };
        let c = if self.tempered {
            b.push("router temp "@ + temp)
        } else {
            b
        };
        if self.top_k > 0 {
            c.push("top-"@ + decimal_of(self.top_k as nat))
        } else {
            c
        }
    }

    /// What is overridden, in words.
    pub fn summary(&self, temp: &str) -> (r: String)
        ensures
            r@ == listed(self.parts(temp@), self.parts(temp@).len()),
    {
        proof {
            reveal_strlit(" experts disabled");
            reveal_strlit(" forced");
            reveal_strlit("router temp ");
            reveal_strlit("top-");
        }
        let mut out = String::new();
        let ghost mut v: Seq<Seq<char>> = Seq::empty();
        assert(out@ =~= listed(v, 0));
        if self.disabled.len() > 0 {
            let t = join(decimal(self.disabled.len() as u64).as_str(), " experts disabled");
            out = add_part(out, t.as_str(), Ghost(v));
            proof {
                v = v.push(t@);
            }
        }
        assert(v =~= (if self.disabled@.len() > 0 {
            seq![decimal_of(self.disabled@.len()) + " experts disabled"@]
        } else {
            Seq::empty()
        }));
        if self.forced.len() > 0 {
            let t = join(decimal(self.forced.len() as u64).as_str(), " forced");
            out = add_part(out, t.as_str(), Ghost(v));
            proof {
                v = v.push(t@);
            }
        }
        if self.tempered {
            let t = join("router temp ", temp);
            out = add_part(out, t.as_str(), Ghost(v));
            proof {
                v = v.push(t@);
            }
        }
        if self.top_k > 0 {
            let t = join("top-", decimal(self.top_k as u64).as_str());
            out = add_part(out, t.as_str(), Ghost(v));
            proof {
                v = v.push(t@);
            }
        }
        assert(v =~= self.parts(temp@));
        out
    }
}

/// The first `n` texts, with commas between them.
pub open spec fn listed(v: Seq<Seq<char>>, n: nat) -> Seq<char>
    decreases n,
{
    if n == 0 || n > v.len() {
        Seq::empty()
    } else if n == 1 {
        v[0]
    } else {
        listed(v, (n - 1) as nat) + ", "@ + v[n - 1]
    }
}

proof fn lemma_listed(v: Seq<Seq<char>>, w: Seq<Seq<char>>, n: nat)
    requires
        n <= v.len(),
        n <= w.len(),
        v.take(n as int) == w.take(n as int),
    ensures
        listed(v, n) == listed(w, n),
    decreases n,
{
    if n > 0 {
        assert(v[n - 1] == v.take(n as int)[n - 1]);
        assert(w[n - 1] == w.take(n as int)[n - 1]);
        assert(v.take(n - 1) =~= v.take(n as int).take(n - 1));
        assert(w.take(n - 1) =~= w.take(n as int).take(n - 1));
        lemma_listed(v, w, (n - 1) as nat);
    }
}

fn add_part(out: String, t: &str, v: Ghost<Seq<Seq<char>>>) -> (r: String)
    requires
        out@ == listed(v@, v@.len()),
        v@.len() > 0 ==> out@.len() > 0,
        t@.len() > 0,
    ensures
        r@ == listed(v@.push(t@), v@.len() + 1),
        r@.len() > 0,
{
    proof {
        let w = v@.push(t@);
        assert(w.take(v@.len() as int) =~= v@.take(v@.len() as int));
        lemma_listed(v@, w, v@.len());
    }
    if out.as_str().is_empty() {
        t.to_owned()
    } else {
        join3(out.as_str(), ", ", t)
    }
}

/// Which position, or positions, an embedding is pooled from.
#[derive(Clone, Copy, PartialEq, Eq, Debug, Structural)]
pub enum Pool {
    /// Average every position. What most sentence encoders expect.
    Mean,
    /// The final position only, which, under a causal mask, is the only one
    /// that has seen the whole input, and is what decoder-only embedding models
    /// are usually trained for.
    Last,
    /// The first position, for encoders trained with a leading marker token.
    First,
}

impl Default for Pool {
    fn default() -> (r: Pool)
        ensures
            r == Pool::Mean,
    {
        Pool::Mean
    }
}

/// The pooling that a name asks for.
pub open spec fn pool_named(s: Seq<char>) -> Option<Pool> {
    if s == "mean"@ || s == "avg"@ {
        Some(Pool::Mean)
    } else if s == "last"@ {
        Some(Pool::Last)
    } else if s == "first"@ || s == "cls"@ {
        Some(Pool::First)
    } else {
        None
    }
}

impl Pool {
    pub fn parse(s: &str) -> (r: Option<Pool>)
        ensures
            r == pool_named(s@),
    {
        if same(s, "mean") || same(s, "avg") {
            Some(Pool::Mean)
        } else if same(s, "last") {
            Some(Pool::Last)
        } else if same(s, "first") || same(s, "cls") {
            Some(Pool::First)
        } else {
            None
        }
    }

    /// Whether the position `i` of a sequence of `n` counts.
    pub fn counts(self, i: usize, n: usize) -> (r: bool)
        ensures
            r == match self {
                Pool::Mean => true,
                Pool::Last => i + 1 == n,
                Pool::First => i == 0,
            },
    {
        match self {
            Pool::Mean => true,
            Pool::Last => n > 0 && i == n - 1,
            Pool::First => i == 0,
        }
    }
}

/// Running counters of a sequence.
#[derive(Clone, Copy, PartialEq, Eq, Debug, Structural)]
pub struct Stats {
    /// Expert activations (tokens x layers x top_k).
    pub routed: u64,
    /// Expert activations that repeat the previous token's choice at that layer.
    pub reused: u64,
    /// Expert weight bytes touched.
    pub expert_bytes: u64,
    /// Expert weight bytes the kernel was asked to fetch ahead of time.
    pub prefetched: u64,
}

impl Default for Stats {
    fn default() -> (r: Stats)
        ensures
            r == (Stats { routed: 0, reused: 0, expert_bytes: 0, prefetched: 0 }),
    {
        Stats { routed: 0, reused: 0, expert_bytes: 0, prefetched: 0 }
    }
}

impl Stats {
    /// The share of activations that repeat the previous token's choice, as a
    /// fraction: nothing of one where there were none.
    pub fn reuse_rate(&self) -> (r: (u64, u64))
        ensures
            r == (if self.routed == 0 {
                (0u64, 1u64)
            } else {
                (self.reused, self.routed)
            }),
    {
        if self.routed == 0 {
            (0, 1)
        } else {
            (self.reused, self.routed)
        }
    }
}

/// Per-sequence state: how far the cache reaches, and what was routed.
pub struct State {
    /// Key and value widths held per cached position.
    pub kdim: usize,
    pub vdim: usize,
    pub pos: usize,
    pub ctx: usize,
    pub prev: Vec<Vec<u32>>,
    pub stats: Stats,
    /// Set by [`State::start_trace`] to record every routing decision.
    pub trace: Option<Trace>,
}

/// The choices of a step that begins at `base`, one decision per token.
pub open spec fn is_step(r: Seq<Route>, base: int, layer: int, picks: Seq<Vec<(u32, u32)>>) -> bool {
    &&& r.len() == picks.len()
    &&& forall|i: int|
        0 <= i < r.len() ==> (#[trigger] r[i]).pos == (base + i) as u32 && r[i].layer == layer as u32
            && r[i].experts@ == picks[i]@
}

fn copy_pairs(v: &Vec<(u32, u32)>) -> (r: Vec<(u32, u32)>)
    ensures
        r@ == v@,
{
    let mut out: Vec<(u32, u32)> = Vec::new();
    let mut i: usize = 0;
    while i < v.len()
        invariant
            i <= v@.len(),
            out@ == v@.take(i as int),
        decreases v@.len() - i,
    {
        out.push(v[i]);
        i += 1;
        assert(v@.take(i as int) =~= v@.take(i - 1).push(v@[i - 1]));
    }
    assert(out@ =~= v@);
    out
}

fn step_routes(base: usize, layer: usize, picks: &Vec<Vec<(u32, u32)>>) -> (r: Vec<Route>)
    ensures
        is_step(r@, base as int, layer as int, picks@),
{
    let mut out: Vec<Route> = Vec::new();
    let mut i: usize = 0;
    while i < picks.len()
        invariant
            i <= picks@.len(),
            out@.len() == i,
            forall|k: int|
                0 <= k < i ==> (#[trigger] out@[k]).pos == (base + k) as u32 && out@[k].layer == layer as u32
                    && out@[k].experts@ == picks@[k]@,
        decreases picks@.len() - i,
    {
        let wide: u128 = base as u128 + i as u128;
        let pos: u32 = #[verifier::truncate]
        (wide as u32);
        assert(wide == base + i);
        let l: u32 = #[verifier::truncate]
        (layer as u32);
        out.push(Route { pos, layer: l, experts: copy_pairs(&picks[i]) });
        i += 1;
    }
    out
}

fn empty_lists(layers: usize) -> (prev: Vec<Vec<u32>>)
    ensures
        prev@.len() == layers,
        forall|l: int| 0 <= l < layers ==> (#[trigger] prev@[l])@.len() == 0,
{
    let mut prev: Vec<Vec<u32>> = Vec::new();
    let mut l: usize = 0;
    while l < layers
        invariant
            l <= layers,
            prev@.len() == l,
            forall|k: int| 0 <= k < l ==> (#[trigger] prev@[k])@.len() == 0,
        decreases layers - l,
    {
        prev.push(Vec::new());
        l += 1;
    }
    prev
}

/// A count as a counter shows it, which starts over after its largest value.
pub open spec fn wrapped(n: int) -> u64 {
    if n > u64::MAX {
        (n - 0x1_0000_0000_0000_0000) as u64
    } else {
        n as u64
    }
}

/// The decisions among the first `n` at positions before `pos`.
pub open spec fn routes_before(v: Seq<Route>, pos: int, n: nat) -> Seq<Route>
    decreases n,
{
    if n == 0 || n > v.len() {
        Seq::empty()
    } else {
        let rest = routes_before(v, pos, (n - 1) as nat);
        if v[n - 1].pos < pos {
            rest.push(v[n - 1])
        } else {
            rest
        }
    }
}

/// A trace cut at a position.
pub open spec fn trace_before(t: Trace, pos: int, u: Trace) -> bool {
    &&& u.tokens@ == (if pos < t.tokens@.len() {
        t.tokens@.take(pos)
    } else {
        t.tokens@
    })
    &&& u.routes@ == routes_before(t.routes@, pos, t.routes@.len())
}

impl State {
    /// The cursor is inside the window.
    pub open spec fn valid(self) -> bool {
        self.pos <= self.ctx
    }

    pub fn new(m: &Model, ctx: usize) -> (s: State)
        requires
            m.fits(),
        ensures
            s.valid(),
            s.pos == 0,
            s.ctx == ctx,
            (s.kdim as int, s.vdim as int) == m.widths(),
            s.trace is None,
            s.stats == (Stats { routed: 0, reused: 0, expert_bytes: 0, prefetched: 0 }),
            s.prev@.len() == m.spec.layers,
            forall|l: int| 0 <= l < s.prev@.len() ==> (#[trigger] s.prev@[l])@.len() == 0,
    {
        let (kdim, vdim): (usize, usize) = m.kv_dims();
        State { kdim, vdim, pos: 0, ctx, prev: empty_lists(m.spec.layers), stats: Stats::default(), trace: None }
    }

    /// Start recording routing decisions. Off by default: it costs an
    /// allocation per token per routed layer.
    pub fn start_trace(&mut self)
        ensures
            final(self).trace matches Some(t) && t.tokens@.len() == 0 && t.routes@.len() == 0,
            final(self).pos == old(self).pos,
            final(self).ctx == old(self).ctx,
            final(self).kdim == old(self).kdim,
            final(self).vdim == old(self).vdim,
            final(self).stats == old(self).stats,
            final(self).prev == old(self).prev,
    {
        self.trace = Some(Trace { tokens: Vec::new(), routes: Vec::new() });
    }

    /// Bytes held by the cache, where a machine word holds the number.
    pub fn kv_bytes(&self) -> (r: Option<u64>)
        ensures
            match r {
                Some(n) => n == self.prev@.len() * self.ctx * (self.kdim + self.vdim) * 4,
                None => self.prev@.len() * self.ctx * (self.kdim + self.vdim) * 4 > u64::MAX,
            },
    {
        let layers: u64 = self.prev.len() as u64;
        let ctx: u64 = self.ctx as u64;
        let ghost full = self.prev@.len() * self.ctx * (self.kdim + self.vdim) * 4;
        let ghost a = self.prev@.len() as int;
        let ghost b = self.ctx as int;
        let ghost c = self.kdim + self.vdim;
        if layers == 0 || ctx == 0 || (self.kdim == 0 && self.vdim == 0) {
            assert(a * b * c * 4 == 0) by (nonlinear_arith)
                requires
                    a == 0 || b == 0 || c == 0,
            ;
            return Some(0);
        }
        assert(a * b * c >= 0 && a * b >= 1 && a * b * c >= a * b && a * b * c >= c) by (nonlinear_arith)
            requires
                a >= 1,
                b >= 1,
                c >= 1,
        ;
        let width: u64 = match (self.kdim as u64).checked_add(self.vdim as u64) {
            None => return None,
            Some(w) => w,
        };
        match layers.checked_mul(ctx) {
            None => None,
            Some(p) => match p.checked_mul(width) {
                None => None,
                Some(q) => q.checked_mul(4),
            },
        }
    }

    /// Experts the previous token selected at `layer`. Empty for a dense layer,
    /// or immediately after a truncation.
    pub fn previous(&self, layer: usize) -> (r: Vec<u32>)
        ensures
            r@ == (if layer < self.prev@.len() {
                self.prev@[layer as int]@
            } else {
                Seq::empty()
            }),
    {
        if layer < self.prev.len() {
            self.prev[layer].clone()
        } else {
            let r: Vec<u32> = Vec::new();
            assert(r@ =~= Seq::empty());
            r
        }
    }

    pub fn reset(&mut self)
        requires
            old(self).valid(),
        ensures
            final(self).valid(),
            final(self).pos == 0,
            final(self).ctx == old(self).ctx,
            final(self).kdim == old(self).kdim,
            final(self).vdim == old(self).vdim,
            final(self).stats == old(self).stats,
            final(self).prev@.len() == old(self).prev@.len(),
            forall|l: int| 0 <= l < final(self).prev@.len() ==> (#[trigger] final(self).prev@[l])@.len() == 0,
            match old(self).trace {
                None => final(self).trace is None,
                Some(t) => final(self).trace matches Some(u) && trace_before(t, 0, u),
            },
    {
        self.truncate(0);
    }

    /// Drop everything cached at or after position `n`, keeping the prefix.
    ///
    /// The cache is append-only per position, so later positions are simply
    /// overwritten by whatever is forwarded next; nothing needs clearing. The
    /// per-layer previous-selection does get cleared, because the token that
    /// produced it is no longer the one before the cursor.
    pub fn truncate(&mut self, n: usize)
        requires
            old(self).valid(),
        ensures
            final(self).valid(),
            cut_back(*old(self), n as int, *final(self)),
    {
        if n < self.pos {
            self.pos = n;
        }
        self.prev = empty_lists(self.prev.len());
        let pos: usize = self.pos;
        let mut old_trace: Option<Trace> = None;
        std::mem::swap(&mut old_trace, &mut self.trace);
        self.trace = match old_trace {
            None => None,
            Some(t) => Some(cut_trace(t, pos)),
        };
    }

    /// Begin a step over some tokens, where the window has room for them.
    pub fn begin(&mut self, tokens: &Vec<u32>) -> (r: bool)
        requires
            old(self).valid(),
        ensures
            r == (tokens@.len() > 0 && old(self).pos + tokens@.len() <= old(self).ctx),
            final(self).pos == old(self).pos,
            final(self).ctx == old(self).ctx,
            final(self).kdim == old(self).kdim,
            final(self).vdim == old(self).vdim,
            final(self).stats == old(self).stats,
            final(self).prev == old(self).prev,
            !r ==> final(self).trace == old(self).trace,
            r ==> match old(self).trace {
                None => final(self).trace is None,
                Some(t) => final(self).trace matches Some(u) && u.tokens@ == t.tokens@ + tokens@ && u.routes == t.routes,
            },
    {
        if tokens.len() == 0 || tokens.len() > self.ctx - self.pos {
            return false;
        }
        let mut old_trace: Option<Trace> = None;
        std::mem::swap(&mut old_trace, &mut self.trace);
        self.trace = match old_trace {
            None => None,
            Some(t) => {
                let mut all: Vec<u32> = t.tokens;
                let ghost before = all@;
                let mut i: usize = 0;
                while i < tokens.len()
                    invariant
                        i <= tokens@.len(),
                        all@ == before + tokens@.take(i as int),
                    decreases tokens@.len() - i,
                {
                    all.push(tokens[i]);
                    i += 1;
                    assert(tokens@.take(i as int) =~= tokens@.take(i - 1).push(tokens@[i - 1]));
                    assert(all@ =~= before + tokens@.take(i as int));
                }
                assert(tokens@.take(i as int) =~= tokens@);
                Some(Trace { tokens: all, routes: t.routes })
            },
        };
        true
    }

    /// Record what a routed layer did: which experts it used, what they weigh, and, where
    /// tracing is on, every token's choice.
    pub fn record(&mut self, layer: usize, used: Used, bytes: u64, picks: &Vec<Vec<(u32, u32)>>)
        requires
            old(self).valid(),
            layer < old(self).prev@.len(),
        ensures
            final(self).valid(),
            final(self).pos == old(self).pos,
            final(self).ctx == old(self).ctx,
            final(self).kdim == old(self).kdim,
            final(self).vdim == old(self).vdim,
            final(self).prev@ == old(self).prev@.update(layer as int, used.hits),
            final(self).stats == (Stats {
                routed: wrapped(old(self).stats.routed + used.routed),
                reused: wrapped(old(self).stats.reused + used.reused),
                expert_bytes: wrapped(old(self).stats.expert_bytes + bytes),
                prefetched: old(self).stats.prefetched,
            }),
            match old(self).trace {
                None => final(self).trace is None,
                Some(t) => {
                    &&& final(self).trace matches Some(u)
                    &&& u.tokens == t.tokens
                    &&& u.routes@.take(t.routes@.len() as int) == t.routes@
                    &&& is_step(u.routes@.skip(t.routes@.len() as int), old(self).pos as int, layer as int, picks@)
                },
            },
    {
        self.stats.routed = self.stats.routed.wrapping_add(used.routed);
        self.stats.reused = self.stats.reused.wrapping_add(used.reused);
        self.stats.expert_bytes = self.stats.expert_bytes.wrapping_add(bytes);
        self.prev.set(layer, used.hits);
        let mut old_trace: Option<Trace> = None;
        std::mem::swap(&mut old_trace, &mut self.trace);
        self.trace = match old_trace {
            None => None,
            Some(t) => {
                let mut all: Vec<Route> = t.routes;
                let ghost before = all@;
                let mut more: Vec<Route> = step_routes(self.pos, layer, picks);
                let ghost added = more@;
                all.append(&mut more);
                assert(all@.take(before.len() as int) =~= before);
                assert(all@.skip(before.len() as int) =~= added);
                Some(Trace { tokens: t.tokens, routes: all })
            },
        };
    }

    /// Count bytes that were fetched ahead.
    pub fn fetched(&mut self, bytes: u64)
        ensures
            final(self).pos == old(self).pos,
            final(self).ctx == old(self).ctx,
            final(self).kdim == old(self).kdim,
            final(self).vdim == old(self).vdim,
            final(self).prev == old(self).prev,
            final(self).trace == old(self).trace,
            final(self).stats == (Stats {
                prefetched: wrapped(old(self).stats.prefetched + bytes),
                ..old(self).stats
            }),
    {
        self.stats.prefetched = self.stats.prefetched.wrapping_add(bytes);
    }

    /// End a step of `t` tokens that was begun.
    pub fn end(&mut self, t: usize)
        requires
            old(self).pos + t <= old(self).ctx,
        ensures
            final(self).valid(),
            final(self).pos == old(self).pos + t,
            final(self).ctx == old(self).ctx,
            final(self).kdim == old(self).kdim,
            final(self).vdim == old(self).vdim,
            final(self).stats == old(self).stats,
            final(self).prev == old(self).prev,
            final(self).trace == old(self).trace,
    {
        self.pos = self.pos + t;
    }
}

fn cut_trace(t: Trace, pos: usize) -> (u: Trace)
    ensures
        trace_before(t, pos as int, u),
{
    let mut tokens: Vec<u32> = t.tokens;
    let ghost all = tokens@;
    tokens.truncate(pos);
    assert(tokens@ =~= (if pos < all.len() {
        all.take(pos as int)
    } else {
        all
    }));
    let mut rest: Vec<Route> = t.routes;
    let ghost routes = rest@;
    let mut kept: Vec<Route> = Vec::new();
    // Taken from the end and put back in order.
    let mut back: Vec<Route> = Vec::new();
    while rest.len() > 0
        invariant
            rest@.len() + back@.len() == routes.len(),
            rest@ == routes.take(rest@.len() as int),
            forall|i: int| 0 <= i < back@.len() ==> (#[trigger] back@[i]) == routes[routes.len() - 1 - i],
        decreases rest@.len(),
    {
        let ghost n = rest@.len() as int;
        match rest.pop() {
            Some(r) => {
                assert(r == routes[n - 1]);
                assert(rest@ =~= routes.take(n - 1));
                back.push(r);
            },
            None => {},
        }
    }
    let ghost mut done: nat = 0;
    while back.len() > 0
        invariant
            done + back@.len() == routes.len(),
            forall|i: int| 0 <= i < back@.len() ==> (#[trigger] back@[i]) == routes[routes.len() - 1 - i],
            kept@ == routes_before(routes, pos as int, done),
        decreases back@.len(),
    {
        let ghost n = back@.len() as int;
        let ghost b = back@;
        match back.pop() {
            Some(r) => {
                assert(r == b[n - 1]);
                assert(r == routes[done as int]);
                if (r.pos as usize) < pos {
                    kept.push(r);
                }
                proof {
                    done = done + 1;
                }
            },
            None => {},
        }
    }
    Trace { tokens, routes: kept }
}

proof fn lemma_all_before(v: Seq<Route>, pos: int, n: nat)
    requires
        n <= v.len(),
        forall|i: int| 0 <= i < n ==> (#[trigger] v[i]).pos < pos,
    ensures
        routes_before(v, pos, n) == v.take(n as int),
    decreases n,
{
    if n > 0 {
        lemma_all_before(v, pos, (n - 1) as nat);
        assert(v[n - 1].pos < pos);
        assert(v.take(n as int) =~= v.take(n - 1).push(v[n - 1]));
    } else {
        assert(v.take(0) =~= Seq::empty());
    }
}

proof fn lemma_none_before(v: Seq<Route>, pos: int, k: nat, n: nat)
    requires
        k <= n <= v.len(),
        forall|i: int| k <= i < n ==> (#[trigger] v[i]).pos >= pos,
    ensures
        routes_before(v, pos, n) == routes_before(v, pos, k),
    decreases n,
{
    if n > k {
        lemma_none_before(v, pos, k, (n - 1) as nat);
        assert(v[n - 1].pos >= pos);
    }
}

/// A state cut back to `n` positions: those beyond are dropped, the selections before the
/// cursor are forgotten, and the trace ends where the cache does. Where there are no more
/// than `n`, all of them stay.
pub open spec fn cut_back(s: State, n: int, t: State) -> bool {
    &&& t.pos == (if n < s.pos {
        n
    } else {
        s.pos as int
    })
    &&& t.ctx == s.ctx
    &&& t.kdim == s.kdim
    &&& t.vdim == s.vdim
    &&& t.stats == s.stats
    &&& t.prev@.len() == s.prev@.len()
    &&& forall|l: int| 0 <= l < t.prev@.len() ==> (#[trigger] t.prev@[l])@.len() == 0
    &&& match s.trace {
        None => t.trace is None,
        Some(x) => t.trace matches Some(y) && trace_before(x, t.pos as int, y),
    }
}

/// A cache after tokens are forwarded from position `pos` on. What is kept for a position
/// is `row` of what is kept for those before it and of its token; what is kept for later
/// positions stays until it is overwritten.
pub open spec fn forwarded<K>(cache: Seq<K>, pos: int, tokens: Seq<u32>, row: spec_fn(Seq<K>, u32) -> K) -> Seq<K>
    decreases tokens.len(),
{
    if tokens.len() == 0 {
        cache
    } else {
        let c = forwarded(cache, pos, tokens.drop_last(), row);
        let p = pos + tokens.len() - 1;
        c.update(p, row(c.take(p), tokens.last()))
    }
}

/// What is kept beyond the cursor has no part in what is forwarded.
proof fn lemma_forwarded<K>(c: Seq<K>, d: Seq<K>, pos: int, tokens: Seq<u32>, row: spec_fn(Seq<K>, u32) -> K)
    requires
        0 <= pos,
        pos + tokens.len() <= c.len(),
        c.len() == d.len(),
        c.take(pos) == d.take(pos),
    ensures
        forwarded(c, pos, tokens, row).len() == c.len(),
        forwarded(d, pos, tokens, row).len() == c.len(),
        forwarded(c, pos, tokens, row).take(pos + tokens.len()) == forwarded(d, pos, tokens, row).take(
            pos + tokens.len(),
        ),
    decreases tokens.len(),
{
    if tokens.len() > 0 {
        lemma_forwarded(c, d, pos, tokens.drop_last(), row);
        let p = pos + tokens.len() - 1;
        let x = forwarded(c, pos, tokens.drop_last(), row);
        let y = forwarded(d, pos, tokens.drop_last(), row);
        let k = row(x.take(p), tokens.last());
        assert(x.update(p, k).take(p + 1) =~= x.take(p).push(k));
        assert(y.update(p, k).take(p + 1) =~= y.take(p).push(k));
    }
}

/// Going on leaves what was kept.
proof fn lemma_forwarded_on<K>(c: Seq<K>, a: Seq<u32>, b: Seq<u32>, row: spec_fn(Seq<K>, u32) -> K)
    requires
        a.len() + b.len() <= c.len(),
    ensures
        forwarded(c, 0, a + b, row).take(a.len() as int) == forwarded(c, 0, a, row).take(a.len() as int),
        forwarded(c, 0, a + b, row).len() == c.len(),
    decreases b.len(),
{
    if b.len() > 0 {
        lemma_forwarded_on(c, a, b.drop_last(), row);
        assert((a + b).drop_last() =~= a + b.drop_last());
        let x = forwarded(c, 0, a + b.drop_last(), row);
        let y = forwarded(c, 0, a + b, row);
        assert(y.take(a.len() as int) =~= x.take(a.len() as int));
    } else {
        assert(a + b =~= a);
        lemma_forwarded(c, c, 0, a, row);
    }
}

/// A cache that was cut back goes on as a fresh one: after `a` and `b` are forwarded and
/// `b` is dropped again, forwarding `c` keeps for every position what it keeps where only
/// `a` had been forwarded, whatever the model computes and whatever either cache held
/// before. The cursor stands behind `a`, and no layer remembers a selection.
pub proof fn law_truncation_matches_a_fresh_state<K>(
    s: State,
    t: State,
    a: Seq<u32>,
    b: Seq<u32>,
    c: Seq<u32>,
    used: Seq<K>,
    fresh: Seq<K>,
    row: spec_fn(Seq<K>, u32) -> K,
)
    requires
        s.pos == a.len() + b.len() <= s.ctx,
        cut_back(s, a.len() as int, t),
        a.len() + c.len() <= s.ctx,
        used.len() == s.ctx,
        fresh.len() == s.ctx,
    ensures
        t.pos == a.len(),
        forall|l: int| 0 <= l < t.prev@.len() ==> (#[trigger] t.prev@[l])@.len() == 0,
        ({
            let x = forwarded(forwarded(used, 0, a + b, row), t.pos as int, c, row);
            let y = forwarded(forwarded(fresh, 0, a, row), a.len() as int, c, row);
            x.take((a.len() + c.len()) as int) == y.take((a.len() + c.len()) as int)
        }),
{
    let n = a.len() as int;
    assert(used.take(0) =~= fresh.take(0));
    lemma_forwarded(used, fresh, 0, a, row);
    lemma_forwarded_on(used, a, b, row);
    lemma_forwarded(forwarded(used, 0, a + b, row), forwarded(fresh, 0, a, row), n, c, row);
}

/// Cutting back to where the cache ends, or beyond, drops nothing.
pub proof fn law_truncation_never_grows(s: State, n: int, t: State)
    requires
        cut_back(s, n, t),
        0 <= n,
    ensures
        t.pos <= s.pos,
        n >= s.pos ==> t.pos == s.pos,
{
}

/// Dropping what was forwarded since a position gives back the trace as it was there:
/// what is recorded of a prefix does not depend on what came after it.
pub proof fn law_truncation_undoes_a_step(t: Trace, u: Trace, w: Trace, pos: int)
    requires
        t.tokens@.len() == pos,
        forall|i: int| 0 <= i < t.routes@.len() ==> (#[trigger] t.routes@[i]).pos < pos,
        pos <= u.tokens@.len(),
        u.tokens@.take(pos) == t.tokens@,
        t.routes@.len() <= u.routes@.len(),
        u.routes@.take(t.routes@.len() as int) == t.routes@,
        forall|i: int| t.routes@.len() <= i < u.routes@.len() ==> (#[trigger] u.routes@[i]).pos >= pos,
        trace_before(u, pos, w),
    ensures
        w.tokens@ == t.tokens@,
        w.routes@ == t.routes@,
{
    let k = t.routes@.len();
    lemma_none_before(u.routes@, pos, k, u.routes@.len());
    assert forall|i: int| 0 <= i < k implies (#[trigger] u.routes@[i]).pos < pos by {
        assert(u.routes@[i] == u.routes@.take(k as int)[i]);
        assert(t.routes@[i].pos < pos);
    }
    lemma_all_before(u.routes@, pos, k);
    assert(u.tokens@.take(pos) =~= (if pos < u.tokens@.len() {
        u.tokens@.take(pos)
    } else {
        u.tokens@
    }));
}

/// Why a model cannot be loaded.
#[derive(Debug)]
pub enum ModelFault {
    Lack(Lack),
    Load(LoadFault),
}

impl ModelFault {
    /// What is wrong, in words.
    pub open spec fn spelled(self) -> Seq<char> {
        match self {
            ModelFault::Lack(e) => e.spelled(),
            ModelFault::Load(e) => e@.message(),
        }
    }

    /// What is wrong, in words.
    pub fn message(&self) -> (r: String)
        ensures
            r@ == self.spelled(),
    {
        match self {
            ModelFault::Lack(e) => e.message().to_owned(),
            ModelFault::Load(e) => e.message(),
        }
    }
}

/// A model: its shape, its tensors, and which tensor plays which part.
pub struct Model {
    pub spec: Spec,
    pub store: Store,
    /// Whether to advise the kernel about the experts a decode step will
    /// probably want. Free when the weights are already resident, and the
    /// difference between streaming and stalling when they are not.
    pub prefetch: bool,
    /// Interventions on the router. Empty by default, and checked only when not,
    /// so an ordinary run pays nothing for this existing.
    pub routing: Routing,
    pub weights: Bound,
}

/// The weights of an expert, where the layer has experts and this is one of them.
pub open spec fn expert_at(layers: Seq<Layer>, layer: int, expert: int) -> Option<Mlp> {
    if 0 <= layer < layers.len() {
        match layers[layer].ffn {
            Ffn::Dense(_) => None,
            Ffn::Moe { experts, .. } => if 0 <= expert < experts@.len() {
                Some(experts@[expert])
            } else {
                None
            },
        }
    } else {
        None
    }
}

/// The blocks that an expert occupies, in the order the forward pass reads them.
pub open spec fn blocks_of(m: Mlp) -> Seq<&'static [u8]> {
    seq![m.gate.data, m.up.data, m.down.data]
}

/// The bytes that an expert occupies.
pub open spec fn weight_of(m: Mlp) -> nat {
    (m.gate.data@.len() + m.up.data@.len() + m.down.data@.len()) as nat
}

/// The blocks of the first `n` experts of a list, in a layer.
pub open spec fn blocks_in(layers: Seq<Layer>, layer: int, ids: Seq<u32>, n: nat) -> Seq<&'static [u8]>
    decreases n,
{
    if n == 0 || n > ids.len() {
        Seq::empty()
    } else {
        let rest = blocks_in(layers, layer, ids, (n - 1) as nat);
        match expert_at(layers, layer, ids[n - 1] as int) {
            Some(m) => rest + blocks_of(m),
            None => rest,
        }
    }
}

/// The bytes of the first `n` experts of a list, in a layer.
pub open spec fn bytes_in(layers: Seq<Layer>, layer: int, ids: Seq<u32>, n: nat) -> nat
    decreases n,
{
    if n == 0 || n > ids.len() {
        0
    } else {
        let rest = bytes_in(layers, layer, ids, (n - 1) as nat);
        match expert_at(layers, layer, ids[n - 1] as int) {
            Some(m) => rest + weight_of(m),
            None => rest,
        }
    }
}

/// The experts that the previous token chose at a layer.
pub open spec fn previous_at(prev: Seq<Vec<u32>>, layer: int) -> Seq<u32> {
    if 0 <= layer < prev.len() {
        prev[layer]@
    } else {
        Seq::empty()
    }
}

/// The blocks that the previous token used in the first `n` layers.
pub open spec fn ahead_blocks(layers: Seq<Layer>, prev: Seq<Vec<u32>>, n: nat) -> Seq<&'static [u8]>
    decreases n,
{
    if n == 0 {
        Seq::empty()
    } else {
        let ids = previous_at(prev, n - 1);
        ahead_blocks(layers, prev, (n - 1) as nat) + blocks_in(layers, n - 1, ids, ids.len())
    }
}

/// The bytes that the previous token used in the first `n` layers.
pub open spec fn ahead_bytes(layers: Seq<Layer>, prev: Seq<Vec<u32>>, n: nat) -> nat
    decreases n,
{
    if n == 0 {
        0
    } else {
        let ids = previous_at(prev, n - 1);
        ahead_bytes(layers, prev, (n - 1) as nat) + bytes_in(layers, n - 1, ids, ids.len())
    }
}

/// The blocks kept resident of the experts from entry `i` of a list on, where `used`
/// bytes of a budget are spent: those of each expert in turn, until one is too large for
/// what is left. Entries that name no expert are passed over.
pub open spec fn pinned(layers: Seq<Layer>, hot: Seq<(u32, u32)>, budget: int, i: int, used: int) -> Seq<&'static [u8]>
    decreases hot.len() - i,
{
    if i < 0 || i >= hot.len() {
        Seq::empty()
    } else {
        match expert_at(layers, hot[i].0 as int, hot[i].1 as int) {
            None => pinned(layers, hot, budget, i + 1, used),
            Some(m) => if used + weight_of(m) > budget {
                Seq::empty()
            } else {
                blocks_of(m) + pinned(layers, hot, budget, i + 1, used + weight_of(m))
            },
        }
    }
}

/// The bytes of some blocks.
pub open spec fn total_len(v: Seq<&'static [u8]>) -> nat
    decreases v.len(),
{
    if v.len() == 0 {
        0
    } else {
        total_len(v.drop_last()) + v.last()@.len()
    }
}

proof fn lemma_total_len(a: Seq<&'static [u8]>, b: Seq<&'static [u8]>)
    ensures
        total_len(a + b) == total_len(a) + total_len(b),
    decreases b.len(),
{
    if b.len() == 0 {
        assert(a + b =~= a);
    } else {
        lemma_total_len(a, b.drop_last());
        assert((a + b).drop_last() =~= a + b.drop_last());
    }
}

proof fn lemma_pinned(layers: Seq<Layer>, hot: Seq<(u32, u32)>, budget: int, i: int, used: int)
    requires
        0 <= used <= budget,
        0 <= i,
    ensures
        used + total_len(pinned(layers, hot, budget, i, used)) <= budget,
    decreases hot.len() - i,
{
    if i < hot.len() {
        match expert_at(layers, hot[i].0 as int, hot[i].1 as int) {
            None => lemma_pinned(layers, hot, budget, i + 1, used),
            Some(m) => {
                if used + weight_of(m) <= budget {
                    lemma_pinned(layers, hot, budget, i + 1, used + weight_of(m));
                    lemma_total_len(blocks_of(m), pinned(layers, hot, budget, i + 1, used + weight_of(m)));
                    reveal_with_fuel(total_len, 4);
                    let b = blocks_of(m);
                    assert(b.drop_last().drop_last() =~= seq![b[0]]);
                    assert(seq![b[0]].drop_last() =~= Seq::<&'static [u8]>::empty());
                    assert(total_len(b) == weight_of(m));
                }
            },
        }
    }
}

/// Pinning stays inside its budget.
pub proof fn law_pinning_stays_inside_its_budget(layers: Seq<Layer>, hot: Seq<(u32, u32)>, budget: u64)
    ensures
        total_len(pinned(layers, hot, budget as int, 0, 0)) <= budget,
{
    lemma_pinned(layers, hot, budget as int, 0, 0);
}

/// The bytes of the first `n` experts of a layer.
pub open spec fn experts_weigh(v: Seq<Mlp>, n: nat) -> nat
    decreases n,
{
    if n == 0 || n > v.len() {
        0
    } else {
        experts_weigh(v, (n - 1) as nat) + weight_of(v[n - 1])
    }
}

/// The bytes of the experts of the first `n` layers.
pub open spec fn layers_weigh(v: Seq<Layer>, n: nat) -> nat
    decreases n,
{
    if n == 0 || n > v.len() {
        0
    } else {
        layers_weigh(v, (n - 1) as nat) + match v[n - 1].ffn {
            Ffn::Dense(_) => 0,
            Ffn::Moe { experts, .. } => experts_weigh(experts@, experts@.len()),
        }
    }
}

fn plus(sum: u64, n: u64, Ghost(a): Ghost<nat>) -> (r: u64)
    requires
        sum == capped(a),
    ensures
        r == capped((a + n) as nat),
{
    sum.saturating_add(n)
}

fn weigh(m: &Mlp, sum: u64, Ghost(a): Ghost<nat>) -> (r: u64)
    requires
        sum == capped(a),
    ensures
        r == capped(a + weight_of(*m)),
{
    let x: u64 = plus(sum, m.gate.data.len() as u64, Ghost(a));
    let ghost b = (a + m.gate.data@.len()) as nat;
    let y: u64 = plus(x, m.up.data.len() as u64, Ghost(b));
    let ghost c = (b + m.up.data@.len()) as nat;
    plus(y, m.down.data.len() as u64, Ghost(c))
}

/// Put a format and its bytes behind those with as many or more.
pub open spec fn settled(v: Seq<(Dt, u64)>, x: (Dt, u64)) -> Seq<(Dt, u64)>
    decreases v.len(),
{
    if v.len() == 0 || v.last().1 >= x.1 {
        v.push(x)
    } else {
        settled(v.drop_last(), x).push(v.last())
    }
}

/// The first `n` formats with the largest first, in the order given where they are as
/// large.
pub open spec fn by_size(v: Seq<(Dt, u64)>, n: nat) -> Seq<(Dt, u64)>
    decreases n,
{
    if n == 0 || n > v.len() {
        Seq::empty()
    } else {
        settled(by_size(v, (n - 1) as nat), v[n - 1])
    }
}

/// Where a format stands in a list.
pub open spec fn format_at(v: Seq<(Dt, u64)>, dt: Dt, i: int) -> int
    decreases v.len() - i,
{
    if i < 0 || i >= v.len() {
        v.len() as int
    } else if v[i].0 == dt {
        i
    } else {
        format_at(v, dt, i + 1)
    }
}

/// A list with the bytes of one more tensor.
pub open spec fn with_bytes(v: Seq<(Dt, u64)>, dt: Dt, n: nat) -> Seq<(Dt, u64)> {
    let i = format_at(v, dt, 0);
    if i < v.len() {
        v.update(i, (dt, capped(v[i].1 as nat + n)))
    } else {
        v.push((dt, capped(n)))
    }
}

/// The formats of the first `n` tensors that can be read, with the bytes in each, in the
/// order in which they are first met.
pub open spec fn format_bytes(s: Store, v: Seq<(Seq<char>, Rec)>, n: nat) -> Seq<(Dt, u64)>
    decreases n,
{
    if n == 0 || n > v.len() {
        Seq::empty()
    } else {
        let rest = format_bytes(s, v, (n - 1) as nat);
        let name = v[n - 1].0;
        match s.model().span(name, 0, 0, s.model().height(name)) {
            Some(p) if s.readable(name) => with_bytes(rest, s.model().index[name].dt, (p.1 - p.0) as nat),
            _ => rest,
        }
    }
}

proof fn lemma_settled(v: Seq<(Dt, u64)>, x: (Dt, u64), p: int)
    requires
        0 <= p <= v.len(),
        p == 0 || v[p - 1].1 >= x.1,
        forall|i: int| p <= i < v.len() ==> (#[trigger] v[i]).1 < x.1,
    ensures
        settled(v, x) == v.insert(p, x),
    decreases v.len(),
{
    if p == v.len() {
        assert(v.insert(p, x) =~= v.push(x));
    } else {
        assert(v[v.len() - 1].1 < x.1);
        let w = v.drop_last();
        assert forall|i: int| p <= i < w.len() implies (#[trigger] w[i]).1 < x.1 by {
            assert(v[i].1 < x.1);
        }
        lemma_settled(w, x, p);
        assert(v.insert(p, x) =~= w.insert(p, x).push(v.last()));
    }
}

proof fn lemma_no_format(v: Seq<(Dt, u64)>, dt: Dt, i: int, k: int)
    requires
        0 <= i <= k <= v.len(),
        forall|j: int| i <= j < k ==> (#[trigger] v[j]).0 != dt,
        k < v.len() ==> v[k].0 == dt,
    ensures
        format_at(v, dt, i) == k,
    decreases k - i,
{
    if i < k {
        assert(v[i].0 != dt);
        lemma_no_format(v, dt, i + 1, k);
    }
}

fn add_bytes(v: &mut Vec<(Dt, u64)>, dt: Dt, n: usize)
    ensures
        final(v)@ == with_bytes(old(v)@, dt, n as nat),
{
    let mut i: usize = 0;
    while i < v.len()
        invariant
            i <= v@.len(),
            v@ == old(v)@,
            forall|j: int| 0 <= j < i ==> (#[trigger] v@[j]).0 != dt,
        decreases v@.len() - i,
    {
        if v[i].0 == dt {
            proof {
                lemma_no_format(v@, dt, 0, i as int);
            }
            let sum: u64 = v[i].1.saturating_add(n as u64);
            v.set(i, (dt, sum));
            return ;
        }
        i += 1;
    }
    proof {
        lemma_no_format(v@, dt, 0, i as int);
    }
    v.push((dt, n as u64));
}

impl Model {
    /// A model whose weights are bound as its shape asks.
    pub open spec fn binds(self, store: Store, m: SpecV) -> bool {
        &&& self.store == store
        &&& self.spec@ == m
        &&& bound_of(store, m) matches Ok(x)
        &&& bound_shows(self.weights, store, x)
        &&& self.routing.nothing()
        &&& self.prefetch
    }

    pub fn load(store: Store) -> (r: Result<Model, ModelFault>)
        requires
            store.valid(),
        ensures
            match r {
                Ok(m) => derived(store) matches Ok(s) && m.binds(store, s),
                Err(ModelFault::Lack(e)) => derived(store) == Err::<SpecV, Lack>(e),
                Err(ModelFault::Load(e)) => derived(store) matches Ok(s) && bound_of(store, s) == Err::<
                    BoundV,
                    LoadFaultV,
                >(e@),
            },
    {
        match Spec::derive(&store) {
            Err(e) => Err(ModelFault::Lack(e)),
            Ok(spec) => match Model::load_with(store, spec) {
                Err(e) => Err(ModelFault::Load(e)),
                Ok(m) => Ok(m),
            },
        }
    }

    pub fn load_with(store: Store, spec: Spec) -> (r: Result<Model, LoadFault>)
        requires
            store.valid(),
        ensures
            match r {
                Ok(m) => m.binds(store, spec@) && m.spec == spec,
                Err(e) => bound_of(store, spec@) == Err::<BoundV, LoadFaultV>(e@),
            },
    {
        match load_with(&store, &spec) {
            Err(e) => Err(e),
            Ok(weights) => Ok(Model { spec, store, prefetch: true, routing: Routing::default(), weights }),
        }
    }

    /// The weight blocks one expert occupies, in the order the forward pass reads them.
    pub fn expert_data(&self, layer: usize, expert: usize) -> (r: Option<Mlp>)
        ensures
            r == expert_at(self.weights.layers@, layer as int, expert as int),
    {
        if layer < self.weights.layers.len() {
            match &self.weights.layers[layer].ffn {
                Ffn::Dense(_) => None,
                Ffn::Moe { experts, .. } => if expert < experts.len() {
                    Some(experts[expert])
                } else {
                    None
                },
            }
        } else {
            None
        }
    }

    /// The bytes that some experts of a layer occupy.
    pub fn hit_bytes(&self, layer: usize, ids: &Vec<u32>) -> (r: u64)
        ensures
            r == capped(bytes_in(self.weights.layers@, layer as int, ids@, ids@.len())),
    {
        let mut sum: u64 = 0;
        let mut i: usize = 0;
        while i < ids.len()
            invariant
                i <= ids@.len(),
                sum == capped(bytes_in(self.weights.layers@, layer as int, ids@, i as nat)),
            decreases ids@.len() - i,
        {
            match self.expert_data(layer, ids[i] as usize) {
                None => {},
                Some(m) => {
                    sum = weigh(&m, sum, Ghost(bytes_in(self.weights.layers@, layer as int, ids@, i as nat)));
                },
            }
            i += 1;
        }
        sum
    }

    /// The blocks to fetch ahead: those of the experts the previous token chose.
    ///
    /// Expert selection is strongly correlated between adjacent tokens, so the last
    /// token's choice is a good guess at this one's. The advice for every layer is issued
    /// together, before layer 0 runs, so the reads overlap the whole forward pass instead
    /// of stalling the layer that needs them. A wrong guess wastes some page cache and
    /// nothing else.
    ///
    /// Returns the bytes advised too.
    pub fn prefetch_next(&self, st: &State) -> (r: (Vec<&'static [u8]>, u64))
        ensures
            r.0@ == ahead_blocks(self.weights.layers@, st.prev@, self.weights.layers@.len()),
            r.1 == capped(ahead_bytes(self.weights.layers@, st.prev@, self.weights.layers@.len())),
    {
        let mut out: Vec<&'static [u8]> = Vec::new();
        let mut sum: u64 = 0;
        let mut l: usize = 0;
        while l < self.weights.layers.len()
            invariant
                l <= self.weights.layers@.len(),
                out@ == ahead_blocks(self.weights.layers@, st.prev@, l as nat),
                sum == capped(ahead_bytes(self.weights.layers@, st.prev@, l as nat)),
            decreases self.weights.layers@.len() - l,
        {
            let ids: Vec<u32> = st.previous(l);
            assert(ids@ == previous_at(st.prev@, l as int));
            let ghost w = self.weights.layers@;
            let ghost b0 = ahead_blocks(w, st.prev@, l as nat);
            let ghost n0 = ahead_bytes(w, st.prev@, l as nat);
            let mut i: usize = 0;
            assert(out@ =~= b0 + blocks_in(w, l as int, ids@, 0));
            while i < ids.len()
                invariant
                    i <= ids@.len(),
                    w == self.weights.layers@,
                    out@ == b0 + blocks_in(w, l as int, ids@, i as nat),
                    sum == capped(n0 + bytes_in(w, l as int, ids@, i as nat)),
                decreases ids@.len() - i,
            {
                match self.expert_data(l, ids[i] as usize) {
                    None => {},
                    Some(m) => {
                        let ghost before = out@;
                        out.push(m.gate.data);
                        out.push(m.up.data);
                        out.push(m.down.data);
                        sum = weigh(&m, sum, Ghost(n0 + bytes_in(w, l as int, ids@, i as nat)));
                        assert(out@ =~= before + blocks_of(m));
                    },
                }
                i += 1;
                assert(out@ =~= b0 + blocks_in(w, l as int, ids@, i as nat));
            }
            l += 1;
        }
        (out, sum)
    }

    /// The blocks to keep resident: the hottest experts, in the order given, up to
    /// `budget` bytes. Pair it with a trace: counting says which experts a workload
    /// actually uses, and routing is skewed enough that a small pinned set covers most
    /// tokens.
    pub fn pin_experts(&self, hot: &Vec<(u32, u32)>, budget: u64) -> (r: Vec<&'static [u8]>)
        ensures
            r@ == pinned(self.weights.layers@, hot@, budget as int, 0, 0),
    {
        let ghost w = self.weights.layers@;
        let ghost all = pinned(w, hot@, budget as int, 0, 0);
        let mut out: Vec<&'static [u8]> = Vec::new();
        let mut used: u64 = 0;
        let mut i: usize = 0;
        assert(out@ + all =~= all);
        while i < hot.len()
            invariant
                i <= hot@.len(),
                used <= budget,
                w == self.weights.layers@,
                all == pinned(w, hot@, budget as int, 0, 0),
                out@ + pinned(w, hot@, budget as int, i as int, used as int) == all,
            decreases hot@.len() - i,
        {
            match self.expert_data(hot[i].0 as usize, hot[i].1 as usize) {
                None => {},
                Some(m) => {
                    let size: u128 = m.gate.data.len() as u128 + m.up.data.len() as u128 + m.down.data.len() as u128;
                    if size > (budget - used) as u128 {
                        assert(out@ =~= all);
                        return out;
                    }
                    let ghost before = out@;
                    let ghost rest = pinned(w, hot@, budget as int, i + 1, used + weight_of(m));
                    out.push(m.gate.data);
                    out.push(m.up.data);
                    out.push(m.down.data);
                    used = used + size as u64;
                    assert(out@ + rest =~= before + (blocks_of(m) + rest));
                },
            }
            i += 1;
        }
        assert(out@ =~= all);
        out
    }

    /// What a cached position holds: the widths of keys and values, summed over heads.
    pub open spec fn widths(self) -> (int, int) {
        match self.spec.mla {
            Some(m) => (self.spec.heads * (m.qk_nope + m.qk_rope), self.spec.heads * m.v_head as int),
            None => (self.spec.kv_heads * self.spec.head_dim as int, self.spec.kv_heads * self.spec.head_dim as int),
        }
    }

    /// Whether those widths are numbers that the machine holds.
    pub open spec fn fits(self) -> bool {
        self.widths().0 <= usize::MAX && self.widths().1 <= usize::MAX
    }

    /// Key and value widths held per cached position, where the machine holds them.
    pub fn checked_kv_dims(&self) -> (r: Option<(usize, usize)>)
        ensures
            match r {
                Some(d) => (d.0 as int, d.1 as int) == self.widths(),
                None => !self.fits(),
            },
    {
        match &self.spec.mla {
            Some(m) => {
                let ghost h = self.spec.heads as int;
                let ghost n = m.qk_nope + m.qk_rope;
                assert(h == 0 ==> h * n == 0) by (nonlinear_arith);
                match self.spec.heads.checked_mul(m.v_head) {
                    None => None,
                    Some(b) => match m.qk_nope.checked_add(m.qk_rope) {
                        Some(w) => match self.spec.heads.checked_mul(w) {
                            None => None,
                            Some(a) => Some((a, b)),
                        },
                        None => if self.spec.heads == 0 {
                            Some((0, b))
                        } else {
                            assert(h * n >= n) by (nonlinear_arith)
                                requires
                                    h >= 1,
                                    n >= 0,
                            ;
                            None
                        },
                    },
                }
            },
            None => match self.spec.kv_heads.checked_mul(self.spec.head_dim) {
                None => None,
                Some(n) => Some((n, n)),
            },
        }
    }

    /// Key and value widths held per cached position, summed over heads.
    pub fn kv_dims(&self) -> (r: (usize, usize))
        requires
            self.fits(),
        ensures
            (r.0 as int, r.1 as int) == self.widths(),
    {
        match self.checked_kv_dims() {
            Some(d) => d,
            None => (0, 0),
        }
    }

    /// Bytes of routed expert weights across the whole model.
    pub fn expert_bytes(&self) -> (r: u64)
        ensures
            r == capped(layers_weigh(self.weights.layers@, self.weights.layers@.len())),
    {
        let mut sum: u64 = 0;
        let mut l: usize = 0;
        while l < self.weights.layers.len()
            invariant
                l <= self.weights.layers@.len(),
                sum == capped(layers_weigh(self.weights.layers@, l as nat)),
            decreases self.weights.layers@.len() - l,
        {
            let ghost n0 = layers_weigh(self.weights.layers@, l as nat);
            match &self.weights.layers[l].ffn {
                Ffn::Dense(_) => {},
                Ffn::Moe { experts, .. } => {
                    let mut e: usize = 0;
                    while e < experts.len()
                        invariant
                            e <= experts@.len(),
                            sum == capped(n0 + experts_weigh(experts@, e as nat)),
                        decreases experts@.len() - e,
                    {
                        sum = weigh(&experts[e], sum, Ghost(n0 + experts_weigh(experts@, e as nat)));
                        e += 1;
                    }
                },
            }
            l += 1;
        }
        sum
    }

    /// Weight footprint by role: what is no expert, and what is.
    pub fn footprint(&self) -> (r: (u64, u64))
        requires
            self.store.valid(),
        ensures
            r.1 == capped(layers_weigh(self.weights.layers@, self.weights.layers@.len())),
            ({
                let total = capped(total_size(self.store.listed(), self.store.listed().len()) as nat);
                r.0 == (if total >= r.1 {
                    total - r.1
                } else {
                    0
                })
            }),
    {
        let total: u64 = self.store.bytes();
        let experts: u64 = self.expert_bytes();
        (total.saturating_sub(experts), experts)
    }

    /// The formats that the tensors are stored in, with the bytes in each, largest first.
    pub fn dtypes(&self) -> (r: Vec<(Dt, u64)>)
        requires
            self.store.valid(),
        ensures
            ({
                let v = format_bytes(self.store, self.store.listed(), self.store.listed().len());
                r@ == by_size(v, v.len())
            }),
    {
        let mut acc: Vec<(Dt, u64)> = Vec::new();
        let mut i: usize = 0;
        while i < self.store.len()
            invariant
                self.store.valid(),
                i <= self.store.listed().len(),
                acc@ == format_bytes(self.store, self.store.listed(), i as nat),
            decreases self.store.listed().len() - i,
        {
            match self.store.get(self.store.name_at(i)) {
                None => {},
                Some(t) => add_bytes(&mut acc, t.dt, t.data.len()),
            }
            i += 1;
        }
        let mut out: Vec<(Dt, u64)> = Vec::new();
        let mut k: usize = 0;
        while k < acc.len()
            invariant
                k <= acc@.len(),
                out@ == by_size(acc@, k as nat),
            decreases acc@.len() - k,
        {
            let x: (Dt, u64) = acc[k];
            let mut p: usize = out.len();
            while p > 0 && out[p - 1].1 < x.1
                invariant
                    p <= out@.len(),
                    forall|i: int| p <= i < out@.len() ==> (#[trigger] out@[i]).1 < x.1,
                decreases p,
            {
                p -= 1;
            }
            proof {
                lemma_settled(out@, x, p as int);
            }
            out.insert(p, x);
            k += 1;
        }
        out
    }
}

proof fn lemma_settled_descends(v: Seq<(Dt, u64)>, x: (Dt, u64))
    requires
        forall|i: int, j: int| 0 <= i < j < v.len() ==> (#[trigger] v[i]).1 >= (#[trigger] v[j]).1,
    ensures
        ({
            let w = settled(v, x);
            &&& w.len() == v.len() + 1
            &&& w.to_multiset() == v.to_multiset().insert(x)
            &&& forall|i: int, j: int| 0 <= i < j < w.len() ==> (#[trigger] w[i]).1 >= (#[trigger] w[j]).1
            &&& forall|i: int| 0 <= i < w.len() ==> v.contains(#[trigger] w[i]) || w[i] == x
        }),
    decreases v.len(),
{
    broadcast use vstd::seq_lib::group_to_multiset_ensures;

    if v.len() == 0 || v.last().1 >= x.1 {
        assert(v.push(x).to_multiset() =~= v.to_multiset().insert(x));
    } else {
        let u = v.drop_last();
        lemma_settled_descends(u, x);
        let w = settled(u, x);
        assert(u.push(v.last()) =~= v);
        assert(v.to_multiset() =~= u.to_multiset().insert(v.last()));
        assert(w.push(v.last()).to_multiset() =~= v.to_multiset().insert(x));
        assert forall|i: int| 0 <= i < w.len() implies (#[trigger] w[i]).1 >= v.last().1 by {
            if w[i] != x {
                assert(u.contains(w[i]));
                let k = choose|k: int| 0 <= k < u.len() && u[k] == w[i];
                assert(v[k].1 >= v[v.len() - 1].1);
            }
        }
        let full = w.push(v.last());
        assert forall|i: int| 0 <= i < full.len() implies v.contains(#[trigger] full[i]) || full[i] == x by {
            if i == full.len() - 1 {
                assert(v[v.len() - 1] == full[i]);
            } else if w[i] != x {
                assert(u.contains(w[i]));
                let k = choose|k: int| 0 <= k < u.len() && u[k] == w[i];
                assert(v[k] == full[i]);
            }
        }
    }
}

/// Listing formats by size loses none of them and puts no smaller one before a larger.
pub proof fn law_formats_descend(v: Seq<(Dt, u64)>, n: nat)
    requires
        n <= v.len(),
    ensures
        by_size(v, n).to_multiset() == v.take(n as int).to_multiset(),
        forall|i: int, j: int|
            0 <= i < j < by_size(v, n).len() ==> (#[trigger] by_size(v, n)[i]).1 >= (#[trigger] by_size(v, n)[j]).1,
    decreases n,
{
    broadcast use vstd::seq_lib::group_to_multiset_ensures;

    if n == 0 {
        assert(v.take(0) =~= Seq::empty());
    } else {
        law_formats_descend(v, (n - 1) as nat);
        lemma_settled_descends(by_size(v, (n - 1) as nat), v[n - 1]);
        assert(v.take(n as int) =~= v.take(n - 1).push(v[n - 1]));
        assert(v.take(n as int).to_multiset() =~= v.take(n - 1).to_multiset().insert(v[n - 1]));
    }
}

} // verus!
