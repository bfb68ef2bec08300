//! The statistics of a routing trace as text, so that a trace is readable over ssh.
//!
//! Shares, entropies and ratios are worked out in floating point and come in as texts;
//! which layers and experts are listed, in which order, and how the lines are laid out
//! is decided here.

use vstd::prelude::*;
use vstd::string::*;
use crate::route::{dead_below, strongest, Counts, Diff};
use crate::text::{decimal, decimal_of, join, join3};

verus! {

/// Some spaces.
pub open spec fn spaces(n: int) -> Seq<char>
    decreases n,
{
    if n <= 0 {
        Seq::empty()
    } else {
        spaces(n - 1).push(' ')
    }
}

/// A text filled up with spaces behind it.
pub open spec fn filled(s: Seq<char>, n: int) -> Seq<char> {
    s + spaces(n - s.len())
}

/// A text filled up with spaces before it.
pub open spec fn indented(s: Seq<char>, n: int) -> Seq<char> {
    spaces(n - s.len()) + s
}

fn blank(n: usize) -> (r: String)
    ensures
        r@ == spaces(n as int),
{
    let mut out = String::new();
    let mut i: usize = 0;
    assert(out@ =~= spaces(0));
    while i < n
        invariant
            i <= n,
            out@ == spaces(i as int),
        decreases n - i,
    {
        let ghost before = out@;
        out.append(" ");
        proof {
            reveal_strlit(" ");
        }
        assert(out@ =~= before.push(' '));
        i += 1;
    }
    out
}

fn missing(s: &str, n: usize) -> (r: usize)
    ensures
        r == (if n > s@.len() {
            n - s@.len()
        } else {
            0
        }),
{
    let k: usize = s.unicode_len();
    if n > k {
        n - k
    } else {
        0
    }
}

fn fill(s: &str, n: usize) -> (r: String)
    ensures
        r@ == filled(s@, n as int),
{
    join(s, blank(missing(s, n)).as_str())
}

fn indent(s: &str, n: usize) -> (r: String)
    ensures
        r@ == indented(s@, n as int),
{
    join(blank(missing(s, n)).as_str(), s)
}

/// The figures of a layer, written out: how even its choices are, how far the busiest
/// expert is above an even share, and the shares of its strongest experts in percent.
#[derive(Debug)]
pub struct LayerText {
    pub entropy: String,
    pub peak: String,
    pub shares: Vec<String>,
}

/// What a [`LayerText`] holds.
pub struct LayerTextV {
    pub entropy: Seq<char>,
    pub peak: Seq<char>,
    pub shares: Seq<Seq<char>>,
}

/// What some strings hold.
pub open spec fn texts(v: Seq<String>) -> Seq<Seq<char>> {
    Seq::new(v.len(), |i: int| v[i]@)
}

impl View for LayerText {
    type V = LayerTextV;

    open spec fn view(&self) -> LayerTextV {
        LayerTextV { entropy: self.entropy@, peak: self.peak@, shares: texts(self.shares@) }
    }
}

/// What some figures hold.
pub open spec fn layer_texts(v: Seq<LayerText>) -> Seq<LayerTextV> {
    Seq::new(v.len(), |i: int| v[i]@)
}

/// Exactly the routed layers, ascending.
pub open spec fn routed(c: Counts, ls: Seq<u32>) -> bool {
    &&& forall|i: int, j: int| 0 <= i < j < ls.len() ==> ls[i] < ls[j]
    &&& forall|l: u32| #[trigger] ls.contains(l) <==> exists|e: u32| c.count_in(l, e) > 0
}

/// The first `n` strongest experts, with their shares.
pub open spec fn busiest(ids: Seq<u32>, shares: Seq<Seq<char>>, n: nat) -> Seq<char>
    decreases n,
{
    if n == 0 || n > ids.len() {
        Seq::empty()
    } else {
        let one = "e"@ + decimal_of(ids[n - 1] as nat) + (":"@ + shares[n - 1] + "%"@);
        if n == 1 {
            one
        } else {
            busiest(ids, shares, (n - 1) as nat) + "  "@ + one
        }
    }
}

/// The line of a layer.
pub open spec fn layer_line(c: Counts, l: u32, ids: Seq<u32>, t: LayerTextV) -> Seq<char> {
    let dead = decimal_of(dead_below(c, l, (c.experts as u32) as nat));
    "  "@ + filled("L"@ + decimal_of(l as nat), 6) + (" "@ + indented(t.entropy, 7) + (" "@ + indented(t.peak, 5) + ("x "@
        + indented(dead, 5) + ("  "@ + busiest(ids, t.shares, ids.len()) + "\n"@))))
}

/// The lines of the first `n` layers.
pub open spec fn layer_lines(c: Counts, ls: Seq<u32>, tops: Seq<Seq<u32>>, t: Seq<LayerTextV>, n: nat) -> Seq<char>
    decreases n,
{
    if n == 0 || n > ls.len() {
        Seq::empty()
    } else {
        layer_lines(c, ls, tops, t, (n - 1) as nat) + layer_line(c, ls[n - 1], tops[n - 1], t[n - 1])
    }
}

/// What a trace covers.
pub open spec fn heading(c: Counts, layers: nat) -> Seq<char> {
    let name = if c.model@.len() == 0 {
        Seq::empty()
    } else {
        c.model@ + ": "@
    };
    name + (decimal_of(c.tokens as nat) + (" tokens, "@ + decimal_of(layers) + (" routed layers, "@ + decimal_of(
        c.experts as nat,
    ) + (" experts, top-"@ + decimal_of(c.top_k as nat) + "\n"@))))
}

/// The averages over all layers.
pub open spec fn averages(coverage: Seq<char>, entropy: Seq<char>, peak: Seq<char>) -> Seq<char> {
    "coverage "@ + coverage + ("% of (layer, expert) pairs touched   mean entropy "@ + entropy + (
    "   mean peak/uniform "@ + peak + "x\n"@))
}

fn busiest_text(ids: &Vec<(u32, u64)>, shares: &Vec<String>) -> (r: String)
    requires
        ids@.len() <= shares@.len(),
    ensures
        r@ == busiest(Seq::new(ids@.len(), |i: int| ids@[i].0), texts(shares@), ids@.len()),
{
    let ghost v = Seq::new(ids@.len(), |i: int| ids@[i].0);
    let mut out = String::new();
    let mut i: usize = 0;
    assert(out@ =~= busiest(v, texts(shares@), 0));
    while i < ids.len()
        invariant
            i <= ids@.len() <= shares@.len(),
            v == Seq::new(ids@.len(), |i: int| ids@[i].0),
            out@ == busiest(v, texts(shares@), i as nat),
        decreases ids@.len() - i,
    {
        let share = join3(":", shares[i].as_str(), "%");
        let one = join3("e", decimal(ids[i].0 as u64).as_str(), share.as_str());
        assert(texts(shares@)[i as int] == shares@[i as int]@);
        if i == 0 {
            out = one;
        } else {
            out = join3(out.as_str(), "  ", one.as_str());
        }
        i += 1;
    }
    out
}

impl Counts {
    /// The same numbers as the picture. The figures are given for each routed layer, in
    /// order, and for each of its strongest experts; where there are too few, there is no
    /// report.
    pub fn report(&self, top: usize, coverage: &str, entropy: &str, peak: &str, figures: &Vec<LayerText>) -> (r: Option<
        String,
    >)
        requires
            self.valid(),
        ensures
            r is Some ==> exists|ls: Seq<u32>, tops: Seq<Seq<u32>>|
                {
                    &&& routed(*self, ls)
                    &&& tops.len() == ls.len() == figures@.len()
                    &&& forall|i: int| 0 <= i < ls.len() ==> strongest(*self, ls[i], top as int, #[trigger] tops[i])
                    &&& forall|i: int| 0 <= i < ls.len() ==> (#[trigger] tops[i]).len() <= figures@[i].shares@.len()
                    &&& r->0@ == heading(*self, ls.len()) + averages(coverage@, entropy@, peak@)
                        + "\n  layer  entropy  peak  dead  busiest experts\n"@ + #[trigger] layer_lines(
                        *self,
                        ls,
                        tops,
                        layer_texts(figures@),
                        ls.len(),
                    )
                },
            r is None ==> forall|ls: Seq<u32>|
                #[trigger] routed(*self, ls) ==> ls.len() != figures@.len() || exists|i: int, ids: Seq<u32>|
                    0 <= i < figures@.len() && #[trigger] strongest(*self, ls[i], top as int, ids)
                        && figures@[i].shares@.len() < ids.len(),
    {
        let layers: Vec<u32> = self.layers();
        let ghost ls = layers@;
        assert(routed(*self, ls));
        if layers.len() != figures.len() {
            proof {
                assert forall|x: Seq<u32>| #[trigger] routed(*self, x) implies x.len() != figures@.len() by {
                    lemma_routed(*self, ls, x);
                }
            }
            return None;
        }
        let name = if self.model.as_str().is_empty() {
            let e = String::new();
            assert(e@ =~= Seq::empty());
            e
        } else {
            join(self.model.as_str(), ": ")
        };
        let a = join3(" experts, top-", decimal(self.top_k as u64).as_str(), "\n");
        let b = join3(" routed layers, ", decimal(self.experts as u64).as_str(), a.as_str());
        let c = join3(" tokens, ", decimal(layers.len() as u64).as_str(), b.as_str());
        let d = join(decimal(self.tokens as u64).as_str(), c.as_str());
        let mut out = join(name.as_str(), d.as_str());
        assert(out@ == heading(*self, ls.len()));
        let e = join3("   mean peak/uniform ", peak, "x\n");
        let f = join3("% of (layer, expert) pairs touched   mean entropy ", entropy, e.as_str());
        let g = join3("coverage ", coverage, f.as_str());
        out.append(g.as_str());
        out.append("\n  layer  entropy  peak  dead  busiest experts\n");
        let ghost head = out@;
        let ghost mut tops: Seq<Seq<u32>> = Seq::empty();
        let ghost t = layer_texts(figures@);
        let mut i: usize = 0;
        assert(out@ =~= head + layer_lines(*self, ls, tops, t, 0));
        while i < layers.len()
            invariant
                self.valid(),
                i <= layers@.len() == figures@.len(),
                ls == layers@,
                routed(*self, ls),
                t == layer_texts(figures@),
                tops.len() == i,
                forall|k: int| 0 <= k < i ==> strongest(*self, ls[k], top as int, #[trigger] tops[k]),
                forall|k: int| 0 <= k < i ==> (#[trigger] tops[k]).len() <= figures@[k].shares@.len(),
                out@ == head + layer_lines(*self, ls, tops, t, i as nat),
            decreases layers@.len() - i,
        {
            let l: u32 = layers[i];
            let ids: Vec<(u32, u64)> = self.top(l, top);
            let ghost idv = Seq::new(ids@.len(), |k: int| ids@[k].0);
            if figures[i].shares.len() < ids.len() {
                proof {
                    assert(strongest(*self, ls[i as int], top as int, idv));
                    assert forall|x: Seq<u32>| #[trigger] routed(*self, x) implies exists|k: int, ids: Seq<u32>|
                        0 <= k < figures@.len() && #[trigger] strongest(*self, x[k], top as int, ids)
                            && figures@[k].shares@.len() < ids.len() by {
                        lemma_routed(*self, ls, x);
                        assert(strongest(*self, x[i as int], top as int, idv));
                    }
                }
                return None;
            }
            assert(t[i as int] == figures@[i as int]@);
            let best = busiest_text(&ids, &figures[i].shares);
            let dead = decimal(self.dead(l) as u64);
            let p = join3("  ", best.as_str(), "\n");
            let q = join3("x ", indent(dead.as_str(), 5).as_str(), p.as_str());
            let u = join3(" ", indent(figures[i].peak.as_str(), 5).as_str(), q.as_str());
            let v = join3(" ", indent(figures[i].entropy.as_str(), 7).as_str(), u.as_str());
            let label = join("L", decimal(l as u64).as_str());
            let line = join3("  ", fill(label.as_str(), 6).as_str(), v.as_str());
            assert(line@ == layer_line(*self, l, idv, t[i as int]));
            let ghost before = tops;
            proof {
                tops = tops.push(idv);
                lemma_lines(*self, ls, before, tops, t, i as nat);
            }
            let ghost o = out@;
            out.append(line.as_str());
            i += 1;
            assert(layer_lines(*self, ls, tops, t, i as nat) == layer_lines(*self, ls, before, t, (i - 1) as nat)
                + layer_line(*self, l, idv, t[i - 1]));
            assert(out@ =~= head + layer_lines(*self, ls, tops, t, i as nat));
        }
        proof {
            assert(routed(*self, ls));
            let lines = layer_lines(*self, ls, tops, t, ls.len());
            assert(out@ == head + lines);
        }
        Some(out)
    }
}

proof fn lemma_lines(c: Counts, ls: Seq<u32>, a: Seq<Seq<u32>>, b: Seq<Seq<u32>>, t: Seq<LayerTextV>, n: nat)
    requires
        n <= a.len(),
        a.len() <= b.len(),
        forall|i: int| 0 <= i < n ==> a[i] == #[trigger] b[i],
    ensures
        layer_lines(c, ls, a, t, n) == layer_lines(c, ls, b, t, n),
    decreases n,
{
    if n > 0 {
        assert(a[n - 1] == b[n - 1]);
        lemma_lines(c, ls, a, b, t, (n - 1) as nat);
    }
}

/// The routed layers of a trace are one list.
proof fn lemma_routed(c: Counts, a: Seq<u32>, b: Seq<u32>)
    requires
        routed(c, a),
        routed(c, b),
    ensures
        a == b,
{
    assert forall|l: u32| a.contains(l) <==> b.contains(l) by {
        assert(a.contains(l) <==> exists|e: u32| c.count_in(l, e) > 0);
        assert(b.contains(l) <==> exists|e: u32| c.count_in(l, e) > 0);
    }
    lemma_same(a, b);
}

proof fn lemma_same(a: Seq<u32>, b: Seq<u32>)
    requires
        forall|i: int, j: int| 0 <= i < j < a.len() ==> a[i] < a[j],
        forall|i: int, j: int| 0 <= i < j < b.len() ==> b[i] < b[j],
        forall|l: u32| a.contains(l) <==> b.contains(l),
    ensures
        a == b,
    decreases a.len(),
{
    if a.len() == 0 {
        if b.len() > 0 {
            assert(b.contains(b[0]));
            assert(a.contains(b[0]));
        }
        assert(a =~= b);
    } else {
        assert(a.contains(a[0]));
        assert(b.contains(a[0]));
        assert(b.contains(b[0]));
        assert(a.contains(b[0]));
        let i = choose|i: int| 0 <= i < b.len() && b[i] == a[0];
        let j = choose|j: int| 0 <= j < a.len() && a[j] == b[0];
        assert(a[0] == b[0]);
        let x = a.drop_first();
        let y = b.drop_first();
        assert forall|l: u32| x.contains(l) <==> y.contains(l) by {
            if x.contains(l) {
                let k = choose|k: int| 0 <= k < x.len() && x[k] == l;
                assert(a[k + 1] == l);
                assert(a[0] < a[k + 1]);
                assert(a.contains(l));
                assert(b.contains(l));
                let m = choose|m: int| 0 <= m < b.len() && b[m] == l;
                assert(y[m - 1] == l);
            }
            if y.contains(l) {
                let k = choose|k: int| 0 <= k < y.len() && y[k] == l;
                assert(b[k + 1] == l);
                assert(b[0] < b[k + 1]);
                assert(b.contains(l));
                assert(a.contains(l));
                let m = choose|m: int| 0 <= m < a.len() && a[m] == l;
                assert(x[m - 1] == l);
            }
        }
        lemma_same(x, y);
        assert(a =~= seq![a[0]] + x);
        assert(b =~= seq![b[0]] + y);
    }
}

/// An expert that one of two runs favours, and by how much, in percent with a sign.
#[derive(Debug)]
pub struct Extreme {
    pub layer: u32,
    pub expert: u32,
    pub delta: String,
    /// Whether the first run favours it.
    pub first: bool,
}

/// What an [`Extreme`] holds.
pub struct ExtremeV {
    pub layer: u32,
    pub expert: u32,
    pub delta: Seq<char>,
    pub first: bool,
}

impl View for Extreme {
    type V = ExtremeV;

    open spec fn view(&self) -> ExtremeV {
        ExtremeV { layer: self.layer, expert: self.expert, delta: self.delta@, first: self.first }
    }
}

/// What some extremes hold.
pub open spec fn extreme_views(v: Seq<Extreme>) -> Seq<ExtremeV> {
    Seq::new(v.len(), |i: int| v[i]@)
}

/// The line of an expert that one run favours.
pub open spec fn extreme_line(x: ExtremeV) -> Seq<char> {
    let side = if x.first {
        "first"@
    } else {
        "second"@
    };
    "  "@ + filled("L"@ + decimal_of(x.layer as nat), 6) + (" "@ + filled("e"@ + decimal_of(x.expert as nat), 7) + (" "@
        + indented(x.delta, 6) + ("%  "@ + side + "\n"@)))
}

/// The lines of the first `n`.
pub open spec fn extreme_lines(v: Seq<ExtremeV>, n: nat) -> Seq<char>
    decreases n,
{
    if n == 0 || n > v.len() {
        Seq::empty()
    } else {
        extreme_lines(v, (n - 1) as nat) + extreme_line(v[n - 1])
    }
}

/// What two traces cover.
pub open spec fn diff_heading(d: Diff, layers: nat, span: Seq<char>) -> Seq<char> {
    let experts = if d.a.experts > d.b.experts {
        d.a.experts
    } else {
        d.b.experts
    };
    "difference over "@ + decimal_of(layers) + (" routed layers x "@ + decimal_of(experts as nat) + (
    " experts (first "@ + decimal_of(d.a.tokens as nat) + (" tokens, second "@ + decimal_of(d.b.tokens as nat)
        + " tokens)\n"@))) + ("widest divergence "@ + span + "%\n\n  layer  expert  delta   favours\n"@)
}

/// Exactly the layers that either run routed, ascending.
pub open spec fn either_routed(d: Diff, ls: Seq<u32>) -> bool {
    &&& forall|i: int, j: int| 0 <= i < j < ls.len() ==> ls[i] < ls[j]
    &&& forall|l: u32| #[trigger]
        ls.contains(l) <==> (exists|e: u32| d.a.count_in(l, e) > 0) || (exists|e: u32| d.b.count_in(l, e) > 0)
}

impl Diff {
    /// Where two runs differ most, given the widest divergence and the experts each side
    /// favours most.
    pub fn report(&self, span: &str, v: &Vec<Extreme>) -> (r: String)
        requires
            self.a.valid(),
            self.b.valid(),
        ensures
            exists|ls: Seq<u32>| #[trigger]
                either_routed(*self, ls) && r@ == diff_heading(*self, ls.len(), span@) + extreme_lines(
                    extreme_views(v@),
                    v@.len(),
                ),
    {
        let layers = self.layers();
        assert(either_routed(*self, layers@));
        let a = join3(" tokens, second ", decimal(self.b.tokens as u64).as_str(), " tokens)\n");
        let b = join3(" experts (first ", decimal(self.a.tokens as u64).as_str(), a.as_str());
        let c = join3(" routed layers x ", decimal(self.experts() as u64).as_str(), b.as_str());
        let d = join3("difference over ", decimal(layers.len() as u64).as_str(), c.as_str());
        let e = join3("widest divergence ", span, "%\n\n  layer  expert  delta   favours\n");
        let mut out = join(d.as_str(), e.as_str());
        let ghost head = out@;
        let ghost x = extreme_views(v@);
        let mut i: usize = 0;
        assert(out@ =~= head + extreme_lines(x, 0));
        while i < v.len()
            invariant
                i <= v@.len(),
                x == extreme_views(v@),
                out@ == head + extreme_lines(x, i as nat),
            decreases v@.len() - i,
        {
            assert(x[i as int] == v@[i as int]@);
            let side: &str = if v[i].first {
                "first"
            } else {
                "second"
            };
            let p = join3("%  ", side, "\n");
            let q = join3(" ", indent(v[i].delta.as_str(), 6).as_str(), p.as_str());
            let ex = join("e", decimal(v[i].expert as u64).as_str());
            let u = join3(" ", fill(ex.as_str(), 7).as_str(), q.as_str());
            let la = join("L", decimal(v[i].layer as u64).as_str());
            let line = join3("  ", fill(la.as_str(), 6).as_str(), u.as_str());
            assert(line@ == extreme_line(x[i as int]));
            let ghost o = out@;
            out.append(line.as_str());
            i += 1;
            assert(out@ =~= head + extreme_lines(x, i as nat));
        }
        out
    }
}

} // verus!
