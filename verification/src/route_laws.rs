//! What a trace of routing decisions amounts to: which line says what, how decisions are counted, and
//! who counts as busy.

use vstd::prelude::*;
use crate::json::{JsonV, NumberV};
use crate::route::{
    before, busiest, dead_below, escaped, event_in, events_in, halves, header_in, pair_heads, peak_below, picked,
    positions, scored, selected_below, selections, strongest, total_of, Counts, Diff, EventV,
};
use crate::text::decimal_of;

verus! {

/// A line of a trace says where a decision was made, in which layer, and which experts were chosen,
/// each with its weight behind it.
pub proof fn law_lines_say_decisions(v: JsonV, pos: u32, layer: u32, experts: Seq<u32>, weights: Seq<NumberV>)
    requires
        weights.len() == experts.len(),
        v.get("pos"@) == Some(JsonV::Num(NumberV::Pos(pos as u64))),
        v.get("layer"@) == Some(JsonV::Num(NumberV::Pos(layer as u64))),
        v.get("experts"@) == Some(
            JsonV::Arr(
                Seq::new(
                    experts.len(),
                    |i: int| JsonV::Arr(seq![JsonV::Num(NumberV::Pos(experts[i] as u64)), JsonV::Num(weights[i])]),
                ),
            ),
        ),
    ensures
        event_in(v).pos == pos,
        event_in(v).layer == layer,
        event_in(v).experts == experts,
{
    lemma_heads(experts, weights, experts.len());
    assert(experts.subrange(0, experts.len() as int) =~= experts);
}

proof fn lemma_heads(experts: Seq<u32>, weights: Seq<NumberV>, n: nat)
    requires
        n <= experts.len() == weights.len(),
    ensures
        ({
            let v = Seq::new(
                experts.len(),
                |i: int| JsonV::Arr(seq![JsonV::Num(NumberV::Pos(experts[i] as u64)), JsonV::Num(weights[i])]),
            );
            pair_heads(v, n) == experts.subrange(0, n as int)
        }),
    decreases n,
{
    let v = Seq::new(
        experts.len(),
        |i: int| JsonV::Arr(seq![JsonV::Num(NumberV::Pos(experts[i] as u64)), JsonV::Num(weights[i])]),
    );
    if n > 0 {
        lemma_heads(experts, weights, (n - 1) as nat);
        assert(v[n - 1]->Arr_0[0] == JsonV::Num(NumberV::Pos(experts[n - 1] as u64)));
    }
    assert(pair_heads(v, n) =~= experts.subrange(0, n as int));
}

/// A line without a position is a header: it says the model's name, its experts and how many of them a
/// token is given, and it is no decision.
pub proof fn law_headers_say(v: Seq<JsonV>, line: JsonV, name: Seq<char>, experts: u64, top_k: u64)
    requires
        line.get("pos"@) is None,
        line.get("model"@) == Some(JsonV::Str(name)),
        line.get("experts"@) == Some(JsonV::Num(NumberV::Pos(experts))),
        line.get("top_k"@) == Some(JsonV::Num(NumberV::Pos(top_k))),
        experts <= usize::MAX,
        top_k <= usize::MAX,
    ensures
        header_in(v.push(line), v.len() + 1) == (name, experts as usize, top_k as usize),
        events_in(v.push(line), v.len() + 1) == events_in(v.push(line), v.len()),
{
}

/// A line with a position is a decision, behind those before it.
pub proof fn law_decisions_are_in_order(v: Seq<JsonV>, line: JsonV)
    requires
        line.get("pos"@) is Some,
    ensures
        events_in(v.push(line), v.len() + 1) == events_in(v.push(line), v.len()).push(event_in(line)),
        header_in(v.push(line), v.len() + 1) == header_in(v.push(line), v.len()),
{
}

/// An expert is counted once for each time a decision of its layer names it, and not for those of
/// other layers.
pub proof fn law_selections_are_counted(v: Seq<EventV>, x: EventV, layer: u32, e: u32)
    ensures
        selections(Seq::empty(), layer, e, 0) == 0,
        x.layer != layer || !x.experts.contains(e) ==> selections(v.push(x), layer, e, v.len() + 1) == selections(
            v,
            layer,
            e,
            v.len(),
        ),
        x.layer == layer && x.experts.contains(e) && x.experts.no_duplicates() ==> selections(v.push(x), layer, e, v.len() + 1)
            == selections(v, layer, e, v.len()) + 1,
{
    lemma_selections(v, v.push(x), layer, e, v.len());
    lemma_picked(x.experts, e, x.experts.len());
    assert(x.experts.take(x.experts.len() as int) =~= x.experts);
}

proof fn lemma_selections(v: Seq<EventV>, w: Seq<EventV>, layer: u32, e: u32, n: nat)
    requires
        n <= v.len() <= w.len(),
        forall|k: int| 0 <= k < v.len() ==> #[trigger] w[k] == v[k],
    ensures
        selections(v, layer, e, n) == selections(w, layer, e, n),
    decreases n,
{
    if n > 0 {
        lemma_selections(v, w, layer, e, (n - 1) as nat);
        assert(w[n - 1] == v[n - 1]);
    }
}

proof fn lemma_picked(v: Seq<u32>, e: u32, n: nat)
    requires
        n <= v.len(),
    ensures
        !v.take(n as int).contains(e) ==> picked(v, e, n) == 0,
        v.take(n as int).contains(e) && v.no_duplicates() ==> picked(v, e, n) == 1,
    decreases n,
{
    if n > 0 {
        lemma_picked(v, e, (n - 1) as nat);
        let a = v.take(n - 1);
        let b = v.take(n as int);
        if a.contains(e) {
            let k = choose|k: int| 0 <= k < a.len() && a[k] == e;
            assert(b[k] == e);
        }
        if v[n - 1] == e {
            assert(b[n - 1] == e);
            if a.contains(e) {
                let k = choose|k: int| 0 <= k < a.len() && a[k] == e;
                assert(v[k] == v[n - 1]);
            }
        }
        if b.contains(e) {
            let k = choose|k: int| 0 <= k < b.len() && b[k] == e;
            if k < n - 1 {
                assert(a[k] == e);
            }
        }
    }
}

/// Positions are counted once, however many layers decided there.
pub proof fn law_positions_are_counted_once(v: Seq<EventV>, i: int, pos: u32)
    ensures
        0 <= i < v.len() ==> positions(v, v.len()).contains(v[i].pos as u64),
        positions(v, v.len()).contains(pos as u64) ==> exists|k: int| 0 <= k < v.len() && (#[trigger] v[k]).pos == pos,
{
    lemma_positions(v, v.len(), i, pos);
}

proof fn lemma_positions(v: Seq<EventV>, n: nat, i: int, pos: u32)
    requires
        n <= v.len(),
    ensures
        0 <= i < n ==> positions(v, n).contains(v[i].pos as u64),
        positions(v, n).contains(pos as u64) ==> exists|k: int| 0 <= k < n && (#[trigger] v[k]).pos == pos,
    decreases n,
{
    if n > 0 {
        lemma_positions(v, (n - 1) as nat, i, pos);
        if v[n - 1].pos == pos {
            assert(v[n - 1].pos == pos);
        }
    }
}

/// The strongest experts are those with most selections: in descending order, none that was never
/// selected, and none left out that has more.
pub proof fn law_strongest_have_most(c: Counts, layer: u32, n: int, r: Seq<u32>, i: int, j: int, e: u32)
    requires
        strongest(c, layer, n, r),
        0 <= i < r.len(),
    ensures
        c.count_in(layer, r[i]) > 0,
        i < j < r.len() ==> c.count_in(layer, r[i]) >= c.count_in(layer, r[j]),
        i < j < r.len() && c.count_in(layer, r[i]) == c.count_in(layer, r[j]) ==> r[i] < r[j],
        e < c.experts as u32 && !r.contains(e) && c.count_in(layer, e) > 0 ==> r.len() == n && c.count_in(layer, r[i])
            >= c.count_in(layer, e),
{
}

/// The experts that pruning keeps are the busiest: none that is left out was selected more often, and of
/// those as busy the lower numbers stay.
pub proof fn law_kept_are_busiest(c: Counts, layer: u32, n: int, r: Seq<u32>, a: u32, b: u32)
    requires
        busiest(c, layer, n, r),
        r.contains(a),
        b < c.experts,
        !r.contains(b),
    ensures
        c.count_in(layer, a) >= c.count_in(layer, b),
        c.count_in(layer, a) == c.count_in(layer, b) ==> a < b,
{
    assert(scored(c, layer, b).1 == b);
}

/// A layer keeps as many experts as were asked for, but no fewer than a token is given and no more than
/// there are.
pub proof fn law_widths_are_held(c: Counts, width: usize, top_k: usize)
    requires
        1 <= top_k <= c.experts,
    ensures
        top_k <= width <= c.experts ==> c.kept_width(width, top_k) == width,
        width < top_k ==> c.kept_width(width, top_k) == top_k,
        width > c.experts ==> c.kept_width(width, top_k) == c.experts,
{
}

/// A layer's selections add up over its experts, its peak is that of the busiest, and its dead experts
/// are those that were never selected.
pub proof fn law_layers_add_up(c: Counts, layer: u32, n: u32, e: u32)
    ensures
        selected_below(c, layer, (n + 1) as nat) == selected_below(c, layer, n as nat) + c.count_in(layer, n),
        dead_below(c, layer, (n + 1) as nat) == dead_below(c, layer, n as nat) + (if c.count_in(layer, n) == 0 { 1int } else { 0 }),
        e < n ==> c.count_in(layer, e) <= peak_below(c, layer, n as nat),
        n > 0 ==> exists|k: u32| k < n && #[trigger] c.count_in(layer, k) == peak_below(c, layer, n as nat),
    decreases n,
{
    if n > 0 {
        law_layers_add_up(c, layer, (n - 1) as u32, e);
        let m = (n - 1) as u32;
        assert(peak_below(c, layer, 0) == 0);
        if c.count_in(layer, m) == peak_below(c, layer, n as nat) {
        } else {
            assert(m > 0);
            let k = choose|k: u32| k < m && #[trigger] c.count_in(layer, k) == peak_below(c, layer, m as nat);
            assert(c.count_in(layer, k) == peak_below(c, layer, n as nat));
        }
    }
}

/// A gap between two runs is named after the run with the larger share, and is as wide as the shares
/// differ; swapping the runs swaps the name and keeps the width.
pub proof fn law_gaps_go_by_share(d: Diff, layer: u32, expert: u32)
    requires
        d.a.tokens > 0,
        d.b.tokens > 0,
    ensures
        d.gap_over(layer, expert).first <==> d.a.count_in(layer, expert) * d.b.tokens > d.b.count_in(layer, expert) * d.a.tokens,
        d.gap_over(layer, expert).layer == layer,
        d.gap_over(layer, expert).expert == expert,
        d.a.count_in(layer, expert) * d.b.tokens == d.b.count_in(layer, expert) * d.a.tokens ==> d.gap_over(layer, expert).size
            == 0,
        d.whole() == d.a.tokens * d.b.tokens,
{
}

/// Wider gaps are listed first.
pub proof fn law_wider_gaps_come_first(d: Diff, n: int, r: Seq<crate::route::Gap>, i: int, j: int)
    requires
        d.widest(n, r),
        0 <= i < j < r.len(),
    ensures
        r[i].size >= r[j].size,
        r[j].size > 0,
{
    assert(before(r[i], r[j]));
    assert(d.notable(r[j]));
    assert(d.whole() >= 0) by {
        assert(total_of(d.a) * total_of(d.b) >= 0) by (nonlinear_arith)
            requires
                total_of(d.a) >= 0,
                total_of(d.b) >= 0,
        ;
    }
}

/// What is escaped: three signs have names, and all else stands as it is.
pub proof fn law_signs_are_escaped(s: Seq<char>, c: char)
    ensures
        escaped(Seq::empty()) == Seq::<char>::empty(),
        escaped(s.push('&')) == escaped(s) + "&amp;"@,
        escaped(s.push('<')) == escaped(s) + "&lt;"@,
        escaped(s.push('>')) == escaped(s) + "&gt;"@,
        c != '&' && c != '<' && c != '>' ==> escaped(s.push(c)) == escaped(s).push(c),
{
    assert(s.push('&').drop_last() =~= s);
    assert(s.push('<').drop_last() =~= s);
    assert(s.push('>').drop_last() =~= s);
    assert(s.push(c).drop_last() =~= s);
}

/// Halves are shown as wholes, or with five behind the point.
pub proof fn law_halves_are_shown(n: nat)
    ensures
        halves(2 * n) == decimal_of(n),
        halves(2 * n + 1) == decimal_of(n) + ".5"@,
{
    assert((2 * n) % 2 == 0 && (2 * n) / 2 == n);
    assert((2 * n + 1) % 2 == 1 && (2 * n + 1) / 2 == n);
}

} // verus!
