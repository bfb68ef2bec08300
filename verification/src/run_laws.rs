//! What running a model relies on: what is drafted, what is reused, what is kept in memory, and how
//! sizes are shown.

use vstd::prelude::*;
use crate::bind::{Ffn, Layer, Mlp};
use crate::draft::{latest, proposal, replay, Lookup};
use crate::eval::{windows_from, Windows};
use crate::float::nearest;
use crate::model::{
    experts_at, expert_at, experts_weigh, format_at, layers_weigh, pinned, pool_named, routes_before, with_bytes, Model,
    Pool, Route,
};
use crate::quant::Dt;
use crate::route::{capped, hundredths};
use crate::slots::{agree_from, reused};
use crate::text::decimal_of;
use crate::units::{human_of, rounded};

verus! {

/// A draft continues the most recent earlier place of the longest recurring suffix: where the last
/// `n` tokens stood at `s` before, and nowhere later, and no longer suffix stood anywhere before,
/// what stood behind them is proposed, as much as is wanted and there is.
pub proof fn law_longest_latest_suffix_is_continued(l: Lookup, h: Seq<u32>, want: nat, n: nat, s: int)
    requires
        0 < want,
        0 < n < h.len(),
        l.min_ngram <= n <= l.max_ngram,
        0 <= s < h.len() - n,
        h.subrange(s, s + n) == h.subrange(h.len() - n, h.len() as int),
        forall|t: int| s < t < h.len() - n ==> #[trigger] h.subrange(t, t + n) != h.subrange(h.len() - n, h.len() as int),
        forall|m: nat, t: int|
            n < m <= l.max_ngram && m < h.len() && 0 <= t < h.len() - m ==> #[trigger] h.subrange(t, t + m) != h.subrange(
                h.len() - m,
                h.len() as int,
            ),
    ensures
        l.proposed(h, want) == h.subrange(s + n, if s + n + want <= h.len() { s + n + want } else { h.len() as int }),
{
    let top: nat = if l.max_ngram < h.len() {
        l.max_ngram as nat
    } else {
        (h.len() - 1) as nat
    };
    let least: nat = if l.min_ngram > 1 {
        l.min_ngram as nat
    } else {
        1
    };
    lemma_proposal(h, least, top, want, n, s);
}

proof fn lemma_proposal(h: Seq<u32>, least: nat, m: nat, want: nat, n: nat, s: int)
    requires
        0 < least <= n <= m < h.len(),
        0 <= s < h.len() - n,
        h.subrange(s, s + n) == h.subrange(h.len() - n, h.len() as int),
        forall|t: int| s < t < h.len() - n ==> #[trigger] h.subrange(t, t + n) != h.subrange(h.len() - n, h.len() as int),
        forall|k: nat, t: int|
            n < k <= m && 0 <= t < h.len() - k ==> #[trigger] h.subrange(t, t + k) != h.subrange(h.len() - k, h.len() as int),
    ensures
        proposal(h, least, m, want) == replay(h, s + n, want),
    decreases m,
{
    if m == n {
        lemma_latest(h, n, h.len() - n - 1, s);
    } else {
        lemma_no_latest(h, m, h.len() - m - 1);
        lemma_proposal(h, least, (m - 1) as nat, want, n, s);
    }
}

proof fn lemma_latest(h: Seq<u32>, n: nat, from: int, s: int)
    requires
        0 <= s <= from < h.len() - n,
        h.subrange(s, s + n) == h.subrange(h.len() - n, h.len() as int),
        forall|t: int| s < t < h.len() - n ==> #[trigger] h.subrange(t, t + n) != h.subrange(h.len() - n, h.len() as int),
    ensures
        latest(h, n, from) == Some(s),
    decreases from - s,
{
    if s < from {
        assert(h.subrange(from, from + n) != h.subrange(h.len() - n, h.len() as int));
        lemma_latest(h, n, from - 1, s);
    }
}

proof fn lemma_no_latest(h: Seq<u32>, n: nat, from: int)
    requires
        from < h.len() - n,
        forall|t: int| 0 <= t < h.len() - n ==> #[trigger] h.subrange(t, t + n) != h.subrange(h.len() - n, h.len() as int),
    ensures
        latest(h, n, from) is None,
    decreases from + 1,
{
    if from >= 0 {
        assert(h.subrange(from, from + n) != h.subrange(h.len() - n, h.len() as int));
        lemma_no_latest(h, n, from - 1);
    }
}

/// Nothing is drafted where no suffix of enough tokens recurs.
pub proof fn law_nothing_recurs_nothing_is_drafted(l: Lookup, h: Seq<u32>, want: nat)
    requires
        forall|m: nat, t: int|
            l.min_ngram <= m && 0 < m && m <= l.max_ngram && m < h.len() && 0 <= t < h.len() - m ==> #[trigger] h.subrange(
                t,
                t + m,
            ) != h.subrange(h.len() - m, h.len() as int),
    ensures
        l.proposed(h, want) == Seq::<u32>::empty(),
{
    if want > 0 && h.len() >= 2 {
        let top: nat = if l.max_ngram < h.len() {
            l.max_ngram as nat
        } else {
            (h.len() - 1) as nat
        };
        let least: nat = if l.min_ngram > 1 {
            l.min_ngram as nat
        } else {
            1
        };
        lemma_no_proposal(l, h, least, top, want);
    }
}

proof fn lemma_no_proposal(l: Lookup, h: Seq<u32>, least: nat, m: nat, want: nat)
    requires
        m < h.len(),
        m <= l.max_ngram,
        l.min_ngram <= least,
        0 < least,
        forall|m: nat, t: int|
            l.min_ngram <= m && 0 < m && m <= l.max_ngram && m < h.len() && 0 <= t < h.len() - m ==> #[trigger] h.subrange(
                t,
                t + m,
            ) != h.subrange(h.len() - m, h.len() as int),
    ensures
        proposal(h, least, m, want) == Seq::<u32>::empty(),
    decreases m,
{
    if m >= least {
        lemma_no_latest(h, m, h.len() - m - 1);
        lemma_no_proposal(l, h, least, (m - 1) as nat, want);
    }
}

/// As much is reused as agrees: behind what is reused, the request and the history differ, or one of
/// them ends, but that one token is always left.
pub proof fn law_reuse_goes_as_far_as_it_can(want: Seq<u32>, history: Seq<u32>)
    requires
        want.len() > 0,
    ensures
        ({
            let n = reused(want, history, true) as int;
            n == want.len() - 1 || n == history.len() || n < history.len() && want[n] != history[n]
        }),
        reused(want, history, false) == 0,
{
    lemma_agree(want, history, 0);
}

proof fn lemma_agree(a: Seq<u32>, b: Seq<u32>, i: nat)
    requires
        i <= a.len(),
        i <= b.len(),
    ensures
        ({
            let n = agree_from(a, b, i) as int;
            i <= n <= a.len() && n <= b.len() && (n == a.len() || n == b.len() || a[n] != b[n])
        }),
    decreases a.len() - i,
{
    if i < a.len() && i < b.len() && a[i as int] == b[i as int] {
        lemma_agree(a, b, i + 1);
    }
}

/// The windows of an evaluation begin a hop apart, the first at the start, and are no longer than the
/// context.
pub proof fn law_windows_step_evenly(w: Windows, i: int)
    requires
        0 <= i < w.planned().len(),
    ensures
        w.planned()[i].0 == i * w.hop(),
        w.planned()[i].0 + w.planned()[i].2 <= w.total,
        w.planned()[i].2 <= w.width(),
        w.planned()[i].2 == w.width() || w.planned()[i].0 + w.planned()[i].2 == w.total,
        w.planned()[0].1 == 0,
        w.ctx >= 2 ==> w.width() == w.ctx,
        1 <= w.stride <= w.ctx && w.ctx >= 2 ==> w.hop() == w.stride,
{
    lemma_windows(w.total as int, w.width(), w.hop(), 0, 0, i);
}

proof fn lemma_windows(total: int, ctx: int, stride: int, start: int, scored: int, i: int)
    requires
        0 <= start,
        0 < stride,
        2 <= ctx,
        0 <= i < windows_from(total, ctx, stride, start, scored).len(),
    ensures
        ({
            let v = windows_from(total, ctx, stride, start, scored)[i];
            v.0 == start + i * stride && v.0 + v.2 <= total && v.2 <= ctx && (v.2 == ctx || v.0 + v.2 == total)
        }),
    decreases i,
{
    if i > 0 {
        let len = if ctx < total - start { ctx } else { total - start };
        let end = if start + len < total - 1 { start + len } else { total - 1 };
        let rest = windows_from(total, ctx, stride, start + stride, end);
        assert(windows_from(total, ctx, stride, start, scored)[i] == rest[i - 1]);
        lemma_windows(total, ctx, stride, start + stride, end, i - 1);
        assert(start + stride + (i - 1) * stride == start + i * stride) by (nonlinear_arith);
    }
}

/// Sizes are shown in the largest unit of which there is one, to the nearest hundredth.
pub proof fn law_sizes_are_shown(n: u64)
    requires
        n <= 0x20_0000_0000_0000,
    ensures
        n < 1024 ==> human_of(n) == decimal_of(n as nat) + " B"@,
        1024 <= n < 1024 * 1024 ==> human_of(n) == hundredths(rounded(n * 100, 1024) as nat) + (" "@ + "KB"@),
        1024 * 1024 <= n < 1024 * 1024 * 1024 ==> human_of(n) == hundredths(rounded(n * 100, 0x10_0000) as nat) + (" "@
            + "MB"@),
        1024 * 1024 * 1024 <= n < 1024 * 1024 * 1024 * 1024 ==> human_of(n) == hundredths(
            rounded(n * 100, 0x4000_0000) as nat,
        ) + (" "@ + "GB"@),
        n >= 1024 * 1024 * 1024 * 1024 ==> human_of(n) == hundredths(rounded(n * 100, 0x100_0000_0000) as nat) + (
        " "@ + "TB"@),
{
    assert(nearest(n) == n);
}

/// Rounding goes to the nearest, and of two that are as near to the even one; hundredths stand behind
/// a point, two of them.
pub proof fn law_rounding_is_nearest(n: int, d: int, q: nat, t: nat, h: nat)
    requires
        0 <= n,
        0 < d,
        t < 10,
        h < 10,
    ensures
        -d <= 2 * (n - rounded(n, d) * d) <= d,
        2 * (n - rounded(n, d) * d) == d || 2 * (n - rounded(n, d) * d) == -d ==> rounded(n, d) % 2 == 0,
        hundredths(100 * q + 10 * t + h) == decimal_of(q) + "."@ + (decimal_of(t) + decimal_of(h)),
{
    let k = n / d;
    let r = n % d;
    assert(n == d * k + r && 0 <= r < d) by (nonlinear_arith)
        requires
            d > 0,
            k == n / d,
            r == n % d,
    ;
    assert(k * d == d * k && (k + 1) * d == d * k + d) by (nonlinear_arith);
    let x = 100 * q + 10 * t + h;
    assert(x / 100 == q && x / 10 % 10 == t && x % 10 == h);
}

/// What a list says of a layer are the experts that it names there, in order.
pub proof fn law_overrides_are_by_layer(v: Seq<(u32, u32)>, layer: u32, e: u32)
    ensures
        experts_at(v, layer, v.len()).contains(e as usize) <==> v.contains((layer, e)),
{
    lemma_experts_at(v, layer, e, v.len());
    assert(v.take(v.len() as int) =~= v);
}

proof fn lemma_experts_at(v: Seq<(u32, u32)>, layer: u32, e: u32, n: nat)
    requires
        n <= v.len(),
    ensures
        experts_at(v, layer, n).contains(e as usize) <==> v.take(n as int).contains((layer, e)),
    decreases n,
{
    if n > 0 {
        let m = (n - 1) as nat;
        lemma_experts_at(v, layer, e, m);
        let before = experts_at(v, layer, m);
        let after = experts_at(v, layer, n);
        let a = v.take(m as int);
        let b = v.take(n as int);
        if before.contains(e as usize) {
            let k = choose|k: int| 0 <= k < before.len() && before[k] == e as usize;
            assert(after[k] == e as usize);
            let j = choose|j: int| 0 <= j < a.len() && a[j] == (layer, e);
            assert(b[j] == (layer, e));
        }
        if v[n - 1] == (layer, e) {
            assert(after[before.len() as int] == e as usize);
            assert(b[n - 1] == (layer, e));
        }
        if after.contains(e as usize) {
            let k = choose|k: int| 0 <= k < after.len() && after[k] == e as usize;
            if k < before.len() {
                assert(before[k] == e as usize);
            } else {
                assert(b[n - 1] == (layer, e));
            }
        }
        if b.contains((layer, e)) {
            let j = choose|j: int| 0 <= j < b.len() && b[j] == (layer, e);
            if j < m {
                assert(a[j] == (layer, e));
            }
        }
    }
}

/// The ways of pooling by their names.
pub proof fn law_pools_are_named(s: Seq<char>)
    ensures
        pool_named("mean"@) == Some(Pool::Mean) && pool_named("avg"@) == Some(Pool::Mean),
        pool_named("last"@) == Some(Pool::Last),
        pool_named("first"@) == Some(Pool::First) && pool_named("cls"@) == Some(Pool::First),
        pool_named(s) is Some ==> s == "mean"@ || s == "avg"@ || s == "last"@ || s == "first"@ || s == "cls"@,
{
    reveal_strlit("mean");
    reveal_strlit("avg");
    reveal_strlit("last");
    reveal_strlit("first");
    reveal_strlit("cls");
    assert("mean"@.len() == 4 && "mean"@[0] == 'm');
    assert("avg"@.len() == 3 && "avg"@[0] == 'a');
    assert("last"@.len() == 4 && "last"@[0] == 'l');
    assert("first"@.len() == 5);
    assert("cls"@.len() == 3 && "cls"@[0] == 'c');
}

/// A cached position keeps a key and a value for every key-value head; with latent attention for
/// every head, the key being its plain and its rotary part.
pub proof fn law_caches_keep_keys_and_values(m: Model)
    ensures
        m.spec.mla is None ==> m.widths().0 == m.spec.kv_heads * m.spec.head_dim && m.widths().1 == m.spec.kv_heads
            * m.spec.head_dim,
        m.spec.mla matches Some(d) ==> m.widths().0 == m.spec.heads * d.qk_nope + m.spec.heads * d.qk_rope && m.widths().1
            == m.spec.heads * d.v_head,
        m.cached_heads().0 * m.cached_heads().1 == m.widths().0,
        m.cached_heads().0 * m.cached_heads().2 == m.widths().1,
{
    if m.spec.mla is Some {
        let d = m.spec.mla->0;
        assert(m.spec.heads * (d.qk_nope + d.qk_rope) == m.spec.heads * d.qk_nope + m.spec.heads * d.qk_rope)
            by (nonlinear_arith);
    }
}

/// A trace that is cut keeps the decisions before the cut, in order, and no other.
pub proof fn law_cuts_keep_what_is_before(v: Seq<Route>, pos: int, r: Route)
    ensures
        routes_before(v, pos, v.len()).contains(r) <==> v.contains(r) && r.pos < pos,
{
    lemma_routes(v, pos, r, v.len());
    assert(v.take(v.len() as int) =~= v);
}

proof fn lemma_routes(v: Seq<Route>, pos: int, r: Route, n: nat)
    requires
        n <= v.len(),
    ensures
        routes_before(v, pos, n).contains(r) <==> v.take(n as int).contains(r) && r.pos < pos,
    decreases n,
{
    if n > 0 {
        let m = (n - 1) as nat;
        lemma_routes(v, pos, r, m);
        let before = routes_before(v, pos, m);
        let after = routes_before(v, pos, n);
        let a = v.take(m as int);
        let b = v.take(n as int);
        if before.contains(r) {
            let k = choose|k: int| 0 <= k < before.len() && before[k] == r;
            assert(after[k] == r);
            let j = choose|j: int| 0 <= j < a.len() && a[j] == r;
            assert(b[j] == r);
        }
        if v[n - 1] == r {
            assert(b[n - 1] == r);
            if r.pos < pos {
                assert(after[before.len() as int] == r);
            }
        }
        if after.contains(r) {
            let k = choose|k: int| 0 <= k < after.len() && after[k] == r;
            if k < before.len() {
                assert(before[k] == r);
            }
        }
        if b.contains(r) {
            let j = choose|j: int| 0 <= j < b.len() && b[j] == r;
            if j < m {
                assert(a[j] == r);
            }
        }
    }
}

/// Keeping experts resident goes down the list: an expert that fits what is left is kept with its three
/// blocks, one that names nothing is passed over, and the first that does not fit ends it.
pub proof fn law_pinning_goes_down_the_list(layers: Seq<Layer>, hot: Seq<(u32, u32)>, budget: int, i: int, used: int, m: Mlp)
    requires
        0 <= i < hot.len(),
    ensures
        expert_at(layers, hot[i].0 as int, hot[i].1 as int) == Some(m) && used + m.gate.data@.len() + m.up.data@.len()
            + m.down.data@.len() <= budget ==> pinned(layers, hot, budget, i, used) == seq![m.gate.data, m.up.data, m.down.data]
            + pinned(layers, hot, budget, i + 1, used + m.gate.data@.len() + m.up.data@.len() + m.down.data@.len()),
        expert_at(layers, hot[i].0 as int, hot[i].1 as int) == Some(m) && used + m.gate.data@.len() + m.up.data@.len()
            + m.down.data@.len() > budget ==> pinned(layers, hot, budget, i, used).len() == 0,
        expert_at(layers, hot[i].0 as int, hot[i].1 as int) is None ==> pinned(layers, hot, budget, i, used) == pinned(
            layers,
            hot,
            budget,
            i + 1,
            used,
        ),
{
}

/// The weights of a model's experts are those of its routed layers together.
pub proof fn law_experts_weigh_together(v: Seq<Layer>, n: nat)
    requires
        0 < n <= v.len(),
    ensures
        layers_weigh(v, 0) == 0,
        v[n - 1].ffn is Dense ==> layers_weigh(v, n) == layers_weigh(v, (n - 1) as nat),
        v[n - 1].ffn matches Ffn::Moe { experts, .. } ==> layers_weigh(v, n) == layers_weigh(v, (n - 1) as nat) + experts_weigh(
            experts@,
            experts@.len(),
        ) && (experts@.len() > 0 ==> experts_weigh(experts@, experts@.len()) == experts_weigh(
            experts@,
            (experts@.len() - 1) as nat,
        ) + experts@[experts@.len() - 1].gate.data@.len() + experts@[experts@.len() - 1].up.data@.len()
            + experts@[experts@.len() - 1].down.data@.len()),
{
}

/// The bytes of a format are counted once: those of a tensor are added to its own format's, and no
/// other's change.
pub proof fn law_formats_are_counted(v: Seq<(Dt, u64)>, dt: Dt, n: nat, i: int)
    requires
        forall|a: int, b: int| 0 <= a < b < v.len() ==> (#[trigger] v[a]).0 != (#[trigger] v[b]).0,
        0 <= i < v.len(),
    ensures
        v[i].0 == dt ==> with_bytes(v, dt, n)[i] == (dt, capped((v[i].1 + n) as nat)) && with_bytes(v, dt, n).len() == v.len(),
        v[i].0 != dt ==> with_bytes(v, dt, n)[i] == v[i],
        (forall|k: int| 0 <= k < v.len() ==> (#[trigger] v[k]).0 != dt) ==> with_bytes(v, dt, n) == v.push((dt, capped(n))),
{
    lemma_format_at(v, dt, 0);
    let at = format_at(v, dt, 0);
    if v[i].0 == dt && at < v.len() && at != i {
        if at < i {
            assert(v[at].0 != v[i].0);
        } else {
            assert(v[i].0 != v[at].0);
        }
    }
}

proof fn lemma_format_at(v: Seq<(Dt, u64)>, dt: Dt, from: int)
    requires
        0 <= from <= v.len(),
    ensures
        from <= format_at(v, dt, from) <= v.len(),
        format_at(v, dt, from) < v.len() ==> v[format_at(v, dt, from)].0 == dt,
        format_at(v, dt, from) == v.len() ==> forall|k: int| from <= k < v.len() ==> (#[trigger] v[k]).0 != dt,
    decreases v.len() - from,
{
    if from < v.len() && v[from].0 != dt {
        lemma_format_at(v, dt, from + 1);
    }
}

} // verus!
