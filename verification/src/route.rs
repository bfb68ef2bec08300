//! Routing analysis: what a sparse model actually did with its experts.
//!
//! A trace is a flat list of `(position, layer, chosen experts)`. Everything
//! interesting is a statistic over that list: how much of the model a prompt
//! reached, how evenly it spread, which experts a domain never touches. Here are
//! the counts, the orders and the layout of the picture; shares come as fractions.

use vstd::prelude::*;
use vstd::string::*;
use crate::json::{elements, Json, JsonV};
use crate::model::{Route, Trace};
use crate::pack::Prune;
use crate::parse::{parse, parsed};
use crate::rank::{descending, outranks, Ranking};
use crate::text::{bytes_of, decimal, decimal_of, join, join3, trim, trimmed};
use vstd::utf8::encode_utf8;

verus! {

/// A layer and an expert as one number that orders by layer first.
pub open spec fn key_of(layer: u32, expert: u32) -> u64 {
    (layer * 0x1_0000_0000 + expert) as u64
}

fn key(layer: u32, expert: u32) -> (r: u64)
    ensures
        r == key_of(layer, expert),
{
    layer as u64 * 0x1_0000_0000 + expert as u64
}

/// Keys stand in ascending order, none twice, each with a count that is not zero.
pub open spec fn orderly(v: Seq<(u64, u64)>) -> bool {
    &&& forall|i: int, j: int| 0 <= i < j < v.len() ==> (#[trigger] v[i]).0 < (#[trigger] v[j]).0
    &&& forall|i: int| 0 <= i < v.len() ==> (#[trigger] v[i]).1 > 0
}

/// The count of a key.
pub open spec fn tallied(v: Seq<(u64, u64)>, k: u64) -> u64
    decreases v.len(),
{
    if v.len() == 0 {
        0
    } else if v.last().0 == k {
        v.last().1
    } else {
        tallied(v.drop_last(), k)
    }
}

proof fn lemma_tallied(v: Seq<(u64, u64)>, k: u64)
    requires
        orderly(v),
    ensures
        forall|i: int| 0 <= i < v.len() && (#[trigger] v[i]).0 == k ==> tallied(v, k) == v[i].1,
        (forall|i: int| 0 <= i < v.len() ==> (#[trigger] v[i]).0 != k) ==> tallied(v, k) == 0,
        tallied(v, k) > 0 ==> exists|i: int| 0 <= i < v.len() && (#[trigger] v[i]) == (k, tallied(v, k)),
    decreases v.len(),
{
    if v.len() > 0 {
        let w = v.drop_last();
        assert(orderly(w)) by {
            assert forall|i: int, j: int| 0 <= i < j < w.len() implies (#[trigger] w[i]).0 < (#[trigger] w[j]).0 by {
                assert(v[i].0 < v[j].0);
            }
            assert forall|i: int| 0 <= i < w.len() implies (#[trigger] w[i]).1 > 0 by {
                assert(v[i].1 > 0);
            }
        }
        lemma_tallied(w, k);
        assert forall|i: int| 0 <= i < v.len() && (#[trigger] v[i]).0 == k implies tallied(v, k) == v[i].1 by {
            if i < w.len() {
                assert(w[i] == v[i]);
                assert(v[i].0 < v[v.len() - 1].0);
            }
        }
        if forall|i: int| 0 <= i < v.len() ==> (#[trigger] v[i]).0 != k {
            assert(v[v.len() - 1].0 != k);
            assert forall|i: int| 0 <= i < w.len() implies (#[trigger] w[i]).0 != k by {
                assert(v[i].0 != k);
            }
        }
        if tallied(v, k) > 0 {
            if v.last().0 == k {
                assert(v[v.len() - 1] == (k, tallied(v, k)));
            } else {
                let i = choose|i: int| 0 <= i < w.len() && (#[trigger] w[i]) == (k, tallied(w, k));
                assert(v[i] == (k, tallied(v, k)));
            }
        }
    }
}

/// Selections by key.
pub struct Tally {
    entries: Vec<(u64, u64)>,
}

impl View for Tally {
    type V = Seq<(u64, u64)>;

    closed spec fn view(&self) -> Seq<(u64, u64)> {
        self.entries@
    }
}

/// One more, up to what a machine word holds.
pub open spec fn one_more(n: u64) -> u64 {
    if n < u64::MAX {
        (n + 1) as u64
    } else {
        n
    }
}

impl Tally {
    pub open spec fn valid(self) -> bool {
        orderly(self@)
    }

    pub fn new() -> (r: Tally)
        ensures
            r.valid(),
            r@ == Seq::<(u64, u64)>::empty(),
    {
        Tally { entries: Vec::new() }
    }

    pub fn len(&self) -> (r: usize)
        ensures
            r == self@.len(),
    {
        self.entries.len()
    }

    pub fn get(&self, i: usize) -> (r: (u64, u64))
        requires
            i < self@.len(),
        ensures
            r == self@[i as int],
    {
        self.entries[i]
    }

    /// How many keys are below `k`.
    fn rank(&self, k: u64) -> (r: usize)
        requires
            self.valid(),
        ensures
            r <= self@.len(),
            forall|i: int| 0 <= i < r ==> (#[trigger] self@[i]).0 < k,
            forall|i: int| r <= i < self@.len() ==> (#[trigger] self@[i]).0 >= k,
    {
        let mut lo: usize = 0;
        let mut hi: usize = self.entries.len();
        while lo < hi
            invariant
                lo <= hi <= self@.len(),
                self.valid(),
                forall|i: int| 0 <= i < lo ==> (#[trigger] self@[i]).0 < k,
                forall|i: int| hi <= i < self@.len() ==> (#[trigger] self@[i]).0 >= k,
            decreases hi - lo,
        {
            let mid: usize = lo + (hi - lo) / 2;
            let m: u64 = self.entries[mid].0;
            assert(self@[mid as int].0 == m);
            if m < k {
                lo = mid + 1;
            } else {
                hi = mid;
            }
        }
        lo
    }

    /// The count of a key.
    pub fn count(&self, k: u64) -> (r: u64)
        requires
            self.valid(),
        ensures
            r == tallied(self@, k),
    {
        let i: usize = self.rank(k);
        proof {
            lemma_tallied(self@, k);
        }
        if i < self.entries.len() {
            let e: (u64, u64) = self.entries[i];
            assert(self@[i as int] == e);
            if e.0 == k {
                return e.1;
            }
            assert forall|j: int| 0 <= j < self@.len() implies (#[trigger] self@[j]).0 != k by {
                if j > i {
                    assert(self@[i as int].0 < self@[j].0);
                }
            }
        }
        0
    }

    /// Count a key once more.
    pub fn bump(&mut self, k: u64)
        requires
            old(self).valid(),
        ensures
            final(self).valid(),
            forall|x: u64| #[trigger]
                tallied(final(self)@, x) == (if x == k {
                    one_more(tallied(old(self)@, k))
                } else {
                    tallied(old(self)@, x)
                }),
    {
        let i: usize = self.rank(k);
        let ghost v = self@;
        if i < self.entries.len() {
            let e: (u64, u64) = self.entries[i];
            assert(v[i as int] == e);
            if e.0 == k {
                let n: u64 = if e.1 < u64::MAX {
                    e.1 + 1
                } else {
                    e.1
                };
                self.entries.set(i, (k, n));
                proof {
                    let w = v.update(i as int, (k, n));
                    assert(self@ =~= w);
                    assert(orderly(w)) by {
                        assert forall|a: int, b: int| 0 <= a < b < w.len() implies (#[trigger] w[a]).0 < (
                        #[trigger] w[b]).0 by {
                            assert(v[a].0 < v[b].0);
                        }
                        assert forall|a: int| 0 <= a < w.len() implies (#[trigger] w[a]).1 > 0 by {
                            assert(v[a].1 > 0);
                        }
                    }
                    lemma_counts(v, w, k, i as int);
                }
                return ;
            }
        }
        self.entries.insert(i, (k, 1));
        proof {
            let w = v.insert(i as int, (k, 1u64));
            assert(self@ =~= w);
            assert(orderly(w)) by {
                assert forall|a: int, b: int| 0 <= a < b < w.len() implies (#[trigger] w[a]).0 < (#[trigger] w[b]).0 by {
                    if b < i {
                        assert(v[a].0 < v[b].0);
                    } else if a < i && b == i {
                        assert(w[a] == v[a]);
                    } else if a < i {
                        assert(w[b] == v[b - 1] && w[a] == v[a]);
                        assert(v[a].0 < v[b - 1].0);
                    } else if a == i {
                        assert(w[b] == v[b - 1]);
                        if i < b - 1 {
                            assert(v[i as int].0 < v[b - 1].0);
                        }
                    } else {
                        assert(w[a] == v[a - 1] && w[b] == v[b - 1]);
                        assert(v[a - 1].0 < v[b - 1].0);
                    }
                }
                assert forall|a: int| 0 <= a < w.len() implies (#[trigger] w[a]).1 > 0 by {
                    if a < i {
                        assert(w[a] == v[a]);
                    } else if a > i {
                        assert(w[a] == v[a - 1]);
                    }
                }
            }
            assert forall|x: u64| #[trigger] tallied(w, x) == (if x == k {
                one_more(tallied(v, k))
            } else {
                tallied(v, x)
            }) by {
                lemma_tallied(w, x);
                lemma_tallied(v, x);
                if x == k {
                    assert(w[i as int] == (k, 1u64));
                    assert forall|j: int| 0 <= j < v.len() implies (#[trigger] v[j]).0 != k by {
                        if j > i {
                            assert(v[i as int].0 < v[j].0);
                        }
                    }
                } else if exists|j: int| 0 <= j < v.len() && (#[trigger] v[j]).0 == x {
                    let j = choose|j: int| 0 <= j < v.len() && (#[trigger] v[j]).0 == x;
                    if j < i {
                        assert(w[j] == v[j]);
                    } else {
                        assert(w[j + 1] == v[j]);
                    }
                } else {
                    assert forall|j: int| 0 <= j < w.len() implies (#[trigger] w[j]).0 != x by {
                        if j < i {
                            assert(w[j] == v[j]);
                        } else if j > i {
                            assert(w[j] == v[j - 1]);
                        }
                    }
                }
            }
        }
    }
}

proof fn lemma_counts(v: Seq<(u64, u64)>, w: Seq<(u64, u64)>, k: u64, i: int)
    requires
        orderly(v),
        orderly(w),
        0 <= i < v.len(),
        v[i].0 == k,
        w == v.update(i, (k, one_more(v[i].1))),
    ensures
        forall|x: u64| #[trigger]
            tallied(w, x) == (if x == k {
                one_more(tallied(v, k))
            } else {
                tallied(v, x)
            }),
{
    assert forall|x: u64| #[trigger] tallied(w, x) == (if x == k {
        one_more(tallied(v, k))
    } else {
        tallied(v, x)
    }) by {
        lemma_tallied(w, x);
        lemma_tallied(v, x);
        if x == k {
            assert(w[i].0 == k);
        } else if exists|j: int| 0 <= j < v.len() && (#[trigger] v[j]).0 == x {
            let j = choose|j: int| 0 <= j < v.len() && (#[trigger] v[j]).0 == x;
            assert(w[j] == v[j]);
        } else {
            assert forall|j: int| 0 <= j < w.len() implies (#[trigger] w[j]).0 != x by {
                if j != i {
                    assert(w[j] == v[j]);
                }
            }
        }
    }
}

/// A decision as it is counted: where, in which layer, which experts.
#[verifier::ext_equal]
pub struct EventV {
    pub pos: u32,
    pub layer: u32,
    pub experts: Seq<u32>,
}

/// How often `e` is among the first `n` of a list.
pub open spec fn picked(v: Seq<u32>, e: u32, n: nat) -> nat
    decreases n,
{
    if n == 0 || n > v.len() {
        0
    } else {
        picked(v, e, (n - 1) as nat) + (if v[n - 1] == e {
            1nat
        } else {
            0nat
        })
    }
}

/// How often the first `n` decisions select an expert of a layer.
pub open spec fn selections(v: Seq<EventV>, layer: u32, e: u32, n: nat) -> nat
    decreases n,
{
    if n == 0 || n > v.len() {
        0
    } else {
        selections(v, layer, e, (n - 1) as nat) + (if v[n - 1].layer == layer {
            picked(v[n - 1].experts, e, v[n - 1].experts.len())
        } else {
            0nat
        })
    }
}

/// A number held to the range of a machine word.
pub open spec fn capped(n: nat) -> u64 {
    if n <= u64::MAX {
        n as u64
    } else {
        u64::MAX
    }
}

/// The positions of the first `n` decisions.
pub open spec fn positions(v: Seq<EventV>, n: nat) -> Set<u64>
    decreases n,
{
    if n == 0 || n > v.len() {
        Set::empty()
    } else {
        positions(v, (n - 1) as nat).insert(v[n - 1].pos as u64)
    }
}

/// Selections per `(layer, expert)`, plus what the trace says about the model.
pub struct Counts {
    pub model: String,
    pub experts: usize,
    pub top_k: usize,
    /// Distinct token positions the trace covers.
    pub tokens: usize,
    /// Selections by layer and expert.
    pub tally: Tally,
}

/// Whether a ranking lists the members of a set, all with score zero.
spec fn lists(r: Seq<(u64, u64)>, s: Set<u64>) -> bool {
    &&& forall|x: u64| #[trigger] s.contains(x) <==> r.contains((0u64, x))
    &&& forall|i: int| 0 <= i < r.len() ==> (#[trigger] r[i]).0 == 0
}

proof fn lemma_listed(r: Seq<(u64, u64)>, s: Set<u64>)
    requires
        descending(r),
        lists(r, s),
        s.finite(),
    ensures
        s.len() == r.len(),
{
    let ids = Seq::new(r.len(), |i: int| r[i].1);
    assert(ids.no_duplicates()) by {
        assert forall|i: int, j: int| 0 <= i < ids.len() && 0 <= j < ids.len() && i != j implies ids[i] != ids[j] by {
            if i < j {
                assert(outranks(r[i], r[j]));
            } else {
                assert(outranks(r[j], r[i]));
            }
        }
    }
    ids.unique_seq_to_set();
    assert(ids.to_set() =~= s) by {
        assert forall|x: u64| ids.to_set().contains(x) <==> s.contains(x) by {
            if ids.to_set().contains(x) {
                let i = choose|i: int| 0 <= i < ids.len() && ids[i] == x;
                assert(r[i] == (0u64, x));
                assert(r.contains((0u64, x)));
            }
            if s.contains(x) {
                assert(r.contains((0u64, x)));
                let i = choose|i: int| 0 <= i < r.len() && r[i] == (0u64, x);
                assert(ids[i] == x);
            }
        }
    }
}

proof fn lemma_positions_finite(v: Seq<EventV>, n: nat)
    ensures
        positions(v, n).finite(),
    decreases n,
{
    if n > 0 && n <= v.len() {
        lemma_positions_finite(v, (n - 1) as nat);
    }
}

/// Counting in progress.
struct Counting {
    tally: Tally,
    seen: Ranking,
}

impl Counting {
    spec fn holds(self, v: Seq<EventV>, n: nat) -> bool {
        &&& self.tally.valid()
        &&& self.seen.valid()
        &&& lists(self.seen@, positions(v, n))
        &&& forall|l: u32, e: u32| #[trigger] tallied(self.tally@, key_of(l, e)) == capped(selections(v, l, e, n))
    }

    fn new() -> (r: Counting)
        ensures
            forall|v: Seq<EventV>| #[trigger] r.holds(v, 0),
    {
        Counting { tally: Tally::new(), seen: Ranking::new() }
    }

    #[verifier::loop_isolation(false)]
    fn add(&mut self, v: Ghost<Seq<EventV>>, n: Ghost<nat>, pos: u32, layer: u32, experts: &Vec<u32>)
        requires
            n@ < v@.len(),
            v@[n@ as int].pos == pos,
            v@[n@ as int].layer == layer,
            v@[n@ as int].experts == experts@,
            old(self).holds(v@, n@),
        ensures
            final(self).holds(v@, n@ + 1),
    {
        let ghost v = v@;
        let ghost n = n@;
        let ghost before = self.seen@;
        self.seen.add(0, pos as u64);
        proof {
            assert forall|i: int| 0 <= i < self.seen@.len() implies (#[trigger] self.seen@[i]).0 == 0 by {
                let x = self.seen@[i];
                assert(self.seen@.contains(x));
                if before.contains(x) {
                    let j = choose|j: int| 0 <= j < before.len() && before[j] == x;
                    assert(before[j].0 == 0);
                }
            }
            assert(lists(self.seen@, positions(v, (n + 1) as nat))) by {
                assert forall|x: u64| #[trigger] positions(v, (n + 1) as nat).contains(x) <==> self.seen@.contains(
                    (0u64, x),
                ) by {
                    assert(positions(v, n).contains(x) <==> before.contains((0u64, x)));
                }
            }
        }
        let mut i: usize = 0;
        while i < experts.len()
            invariant
                i <= experts@.len(),
                self.tally.valid(),
                self.seen.valid(),
                lists(self.seen@, positions(v, (n + 1) as nat)),
                forall|l: u32, e: u32| #[trigger]
                    tallied(self.tally@, key_of(l, e)) == capped(
                        selections(v, l, e, n) + (if l == layer {
                            picked(experts@, e, i as nat)
                        } else {
                            0nat
                        }),
                    ),
            decreases experts@.len() - i,
        {
            let e: u32 = experts[i];
            let ghost t = self.tally@;
            self.tally.bump(key(layer, e));
            proof {
                assert forall|l: u32, x: u32| #[trigger] tallied(self.tally@, key_of(l, x)) == capped(
                    selections(v, l, x, n) + (if l == layer {
                        picked(experts@, x, (i + 1) as nat)
                    } else {
                        0nat
                    }),
                ) by {
                    lemma_key(l, x, layer, e);
                    assert(tallied(t, key_of(l, x)) == capped(
                        selections(v, l, x, n) + (if l == layer {
                            picked(experts@, x, i as nat)
                        } else {
                            0nat
                        }),
                    ));
                }
            }
            i += 1;
        }
    }
}

/// Different pairs have different keys.
proof fn lemma_key(a: u32, b: u32, c: u32, d: u32)
    ensures
        key_of(a, b) == key_of(c, d) ==> a == c && b == d,
{
}

/// The decisions of a trace, as they are counted.
pub open spec fn events_of(r: Seq<Route>) -> Seq<EventV> {
    Seq::new(
        r.len(),
        |i: int|
            EventV {
                pos: r[i].pos,
                layer: r[i].layer,
                experts: Seq::new(r[i].experts@.len(), |j: int| r[i].experts@[j].0),
            },
    )
}

/// The first experts of the first `n` pairs that state one.
pub open spec fn pair_heads(v: Seq<JsonV>, n: nat) -> Seq<u32>
    decreases n,
{
    if n == 0 || n > v.len() {
        Seq::empty()
    } else {
        let rest = pair_heads(v, (n - 1) as nat);
        match head_number(v[n - 1]) {
            Some(e) => rest.push(e as u32),
            None => rest,
        }
    }
}

/// The number that an array begins with.
pub open spec fn head_number(v: JsonV) -> Option<u64> {
    if elements(v).len() > 0 {
        elements(v)[0].as_u64()
    } else {
        None
    }
}

/// A number under a key, or zero.
pub open spec fn number_at(v: JsonV, key: Seq<char>) -> u64 {
    match v.field(key).as_u64() {
        Some(n) => n,
        None => 0,
    }
}

/// The decision that a line of a trace records.
pub open spec fn event_in(v: JsonV) -> EventV {
    let pairs = elements(v.field("experts"@));
    EventV {
        pos: number_at(v, "pos"@) as u32,
        layer: number_at(v, "layer"@) as u32,
        experts: pair_heads(pairs, pairs.len()),
    }
}

/// The decisions that the first `n` lines record. A line without a position is a
/// header, and records none.
pub open spec fn events_in(v: Seq<JsonV>, n: nat) -> Seq<EventV>
    decreases n,
{
    if n == 0 || n > v.len() {
        Seq::empty()
    } else if v[n - 1].get("pos"@) is None {
        events_in(v, (n - 1) as nat)
    } else {
        events_in(v, (n - 1) as nat).push(event_in(v[n - 1]))
    }
}

/// What the last header among the first `n` lines says: the model's name, how many
/// experts it has, and how many a token is given.
pub open spec fn header_in(v: Seq<JsonV>, n: nat) -> (Seq<char>, usize, usize)
    decreases n,
{
    if n == 0 || n > v.len() {
        (Seq::empty(), 0, 0)
    } else if v[n - 1].get("pos"@) is None {
        (
            match v[n - 1].field("model"@).as_str() {
                Some(m) => m,
                None => Seq::empty(),
            },
            number_at(v[n - 1], "experts"@) as usize,
            number_at(v[n - 1], "top_k"@) as usize,
        )
    } else {
        header_in(v, (n - 1) as nat)
    }
}

/// What lines hold.
pub open spec fn line_views(v: Seq<Json>) -> Seq<JsonV> {
    Seq::new(v.len(), |i: int| v[i]@)
}

/// What lines of text hold.
pub open spec fn text_views(v: Seq<String>) -> Seq<Seq<char>> {
    Seq::new(v.len(), |i: int| v[i]@)
}

/// The documents among the first `n` lines of text. Blank lines, and lines that are no
/// JSON, hold none.
pub open spec fn documents_in(v: Seq<Seq<char>>, n: nat) -> Seq<JsonV>
    decreases n,
{
    if n == 0 || n > v.len() {
        Seq::empty()
    } else {
        let rest = documents_in(v, (n - 1) as nat);
        if trimmed(v[n - 1]).len() == 0 {
            rest
        } else {
            match parsed(encode_utf8(v[n - 1])) {
                Ok(j) => rest.push(j),
                Err(_) => rest,
            }
        }
    }
}

/// Lines that were each written from a document, and read as it, are read as just those
/// documents, in their order.
pub proof fn law_written_lines_are_read(v: Seq<Seq<char>>, docs: Seq<JsonV>, n: nat)
    requires
        n <= v.len(),
        v.len() == docs.len(),
        forall|i: int|
            0 <= i < v.len() ==> trimmed(#[trigger] v[i]).len() > 0 && parsed(encode_utf8(v[i])) == Ok::<JsonV, Seq<char>>(
                docs[i],
            ),
    ensures
        documents_in(v, n) == docs.take(n as int),
    decreases n,
{
    if n > 0 {
        law_written_lines_are_read(v, docs, (n - 1) as nat);
        assert(trimmed(v[n - 1]).len() > 0);
        assert(docs.take(n as int) =~= docs.take(n - 1).push(docs[n - 1]));
    } else {
        assert(docs.take(0) =~= Seq::empty());
    }
}

/// How many experts the first `n` keys show: one more than the highest.
pub open spec fn experts_shown(v: Seq<(u64, u64)>, n: nat) -> u64
    decreases n,
{
    if n == 0 || n > v.len() {
        0
    } else {
        let rest = experts_shown(v, (n - 1) as nat);
        let e = v[n - 1].0 % 0x1_0000_0000 + 1;
        if e > rest {
            e as u64
        } else {
            rest
        }
    }
}

/// How many of the experts below `n` a layer never selected.
pub open spec fn dead_below(c: Counts, layer: u32, n: nat) -> nat
    decreases n,
{
    if n == 0 {
        0
    } else {
        dead_below(c, layer, (n - 1) as nat) + (if c.count_in(layer, (n - 1) as u32) == 0 {
            1nat
        } else {
            0nat
        })
    }
}

/// The selections of the experts below `n`.
pub open spec fn selected_below(c: Counts, layer: u32, n: nat) -> nat
    decreases n,
{
    if n == 0 {
        0
    } else {
        selected_below(c, layer, (n - 1) as nat) + c.count_in(layer, (n - 1) as u32) as nat
    }
}

/// The selections of the busiest expert below `n`.
pub open spec fn peak_below(c: Counts, layer: u32, n: nat) -> u64
    decreases n,
{
    if n == 0 {
        0
    } else {
        let rest = peak_below(c, layer, (n - 1) as nat);
        let k = c.count_in(layer, (n - 1) as u32);
        if k > rest {
            k
        } else {
            rest
        }
    }
}

/// An expert with its score in a layer.
pub open spec fn scored(c: Counts, layer: u32, e: u32) -> (u64, u64) {
    (c.count_in(layer, e), e as u64)
}

impl Counts {
    /// Selections by key, ascending.
    pub open spec fn listed(self) -> Seq<(u64, u64)> {
        self.tally@
    }

    pub open spec fn valid(self) -> bool {
        self.tally.valid()
    }

    /// The selections of an expert of a layer.
    pub open spec fn count_in(self, layer: u32, expert: u32) -> u64 {
        tallied(self.listed(), key_of(layer, expert))
    }

    /// The counts are those of these decisions.
    pub open spec fn counted(self, v: Seq<EventV>) -> bool {
        &&& forall|l: u32, e: u32| #[trigger] self.count_in(l, e) == capped(selections(v, l, e, v.len()))
        &&& self.tokens == positions(v, v.len()).len()
    }

    /// Count an in-memory trace.
    #[verifier::loop_isolation(false)]
    pub fn from_trace(tr: &Trace, model: &str, experts: usize, top_k: usize) -> (c: Counts)
        ensures
            c.valid(),
            c.model@ == model@,
            c.experts == experts,
            c.top_k == top_k,
            c.counted(events_of(tr.routes@)),
    {
        let ghost v = events_of(tr.routes@);
        let mut k = Counting::new();
        let mut i: usize = 0;
        while i < tr.routes.len()
            invariant
                i <= tr.routes@.len(),
                k.holds(v, i as nat),
            decreases tr.routes@.len() - i,
        {
            let r: &Route = &tr.routes[i];
            let mut ids: Vec<u32> = Vec::new();
            let mut j: usize = 0;
            while j < r.experts.len()
                invariant
                    j <= r.experts@.len(),
                    ids@.len() == j,
                    forall|m: int| 0 <= m < j ==> ids@[m] == r.experts@[m].0,
                decreases r.experts@.len() - j,
            {
                ids.push(r.experts[j].0);
                j += 1;
            }
            assert(ids@ =~= v[i as int].experts);
            k.add(Ghost(v), Ghost(i as nat), r.pos, r.layer, &ids);
            i += 1;
        }
        let tokens: usize = k.seen.len();
        proof {
            lemma_positions_finite(v, v.len());
            lemma_listed(k.seen@, positions(v, v.len()));
        }
        Counts { model: model.to_owned(), experts, top_k, tokens, tally: k.tally }
    }

    /// Count the lines of a trace file, header line included. A line that is no JSON is
    /// passed over.
    pub fn read(lines: &Vec<String>) -> (c: Counts)
        ensures
            c.valid(),
            ({
                let all = documents_in(text_views(lines@), lines@.len());
                let (model, experts, top_k) = header_in(all, all.len());
                &&& c.counted(events_in(all, all.len()))
                &&& c.model@ == model
                &&& c.top_k == top_k
                &&& c.experts == (if experts == 0 {
                    experts_shown(c.listed(), c.listed().len()) as usize
                } else {
                    experts
                })
            }),
    {
        let ghost v = text_views(lines@);
        let mut read: Vec<Json> = Vec::new();
        let mut i: usize = 0;
        assert(line_views(read@) =~= documents_in(v, 0));
        while i < lines.len()
            invariant
                i <= lines@.len(),
                v == text_views(lines@),
                line_views(read@) == documents_in(v, i as nat),
            decreases lines@.len() - i,
        {
            let line: &str = lines[i].as_str();
            assert(v[i as int] == line@);
            if trim(line).as_str().unicode_len() > 0 {
                match parse(bytes_of(line).as_slice()) {
                    Err(_) => {},
                    Ok(j) => {
                        let ghost was = line_views(read@);
                        let ghost new = j@;
                        read.push(j);
                        assert(line_views(read@) =~= was.push(new));
                    },
                }
            }
            i += 1;
        }
        Counts::from_lines(&read)
    }

    /// Count the lines of a trace, header line included.
    #[verifier::loop_isolation(false)]
    pub fn from_lines(lines: &Vec<Json>) -> (c: Counts)
        ensures
            c.valid(),
            c.counted(events_in(line_views(lines@), lines@.len())),
            ({
                let (model, experts, top_k) = header_in(line_views(lines@), lines@.len());
                &&& c.model@ == model
                &&& c.top_k == top_k
                &&& c.experts == (if experts == 0 {
                    experts_shown(c.listed(), c.listed().len()) as usize
                } else {
                    experts
                })
            }),
    {
        let ghost all = line_views(lines@);
        let ghost v = events_in(all, all.len());
        let mut k = Counting::new();
        let mut model = String::new();
        let mut experts: usize = 0;
        let mut top_k: usize = 0;
        let mut i: usize = 0;
        let ghost mut n: nat = 0;
        assert(model@ =~= Seq::empty());
        while i < lines.len()
            invariant
                i <= lines@.len(),
                n == events_in(all, i as nat).len(),
                k.holds(v, n),
                (model@, experts, top_k) == header_in(all, i as nat),
            decreases lines@.len() - i,
        {
            let line: &Json = &lines[i];
            assert(all[i as int] == line@);
            match line.get("pos") {
                None => {
                    model = match line.field("model").as_str() {
                        Some(m) => m.to_owned(),
                        None => String::new(),
                    };
                    assert(line@.field("model"@).as_str() is None ==> model@ =~= Seq::empty());
                    experts = #[verifier::truncate]
                    (number_in(line, "experts") as usize);
                    top_k = #[verifier::truncate]
                    (number_in(line, "top_k") as usize);
                },
                Some(_) => {
                    let pos: u32 = #[verifier::truncate]
                    (number_in(line, "pos") as u32);
                    let layer: u32 = #[verifier::truncate]
                    (number_in(line, "layer") as u32);
                    let ids: Vec<u32> = heads_in(line.field("experts"));
                    proof {
                        lemma_event(all, (i + 1) as nat, all.len());
                        assert(v[n as int] == event_in(line@));
                    }
                    k.add(Ghost(v), Ghost(n), pos, layer, &ids);
                    proof {
                        n = n + 1;
                    }
                },
            }
            i += 1;
        }
        let tokens: usize = k.seen.len();
        proof {
            assert(n == v.len());
            lemma_positions_finite(v, v.len());
            lemma_listed(k.seen@, positions(v, v.len()));
        }
        if experts == 0 {
            let mut most: u64 = 0;
            let mut j: usize = 0;
            while j < k.tally.len()
                invariant
                    j <= k.tally@.len(),
                    most == experts_shown(k.tally@, j as nat),
                decreases k.tally@.len() - j,
            {
                let e: u64 = k.tally.get(j).0 % 0x1_0000_0000 + 1;
                if e > most {
                    most = e;
                }
                j += 1;
            }
            experts = #[verifier::truncate]
            (most as usize);
        }
        Counts { model, experts, top_k, tokens, tally: k.tally }
    }

    pub fn is_empty(&self) -> (r: bool)
        requires
            self.valid(),
        ensures
            r == forall|l: u32, e: u32| #[trigger] self.count_in(l, e) == 0,
    {
        proof {
            if self.tally@.len() > 0 {
                let k = self.tally@[0].0;
                lemma_tallied(self.tally@, k);
                lemma_split(k);
                assert(self.count_in((k / 0x1_0000_0000) as u32, (k % 0x1_0000_0000) as u32) > 0);
            }
        }
        self.tally.len() == 0
    }

    pub fn count(&self, layer: u32, expert: u32) -> (r: u64)
        requires
            self.valid(),
        ensures
            r == self.count_in(layer, expert),
    {
        self.tally.count(key(layer, expert))
    }

    /// Share of tokens that sent work to this expert, as a fraction.
    pub fn share(&self, layer: u32, expert: u32) -> (r: (u64, usize))
        requires
            self.valid(),
        ensures
            r.0 == self.count_in(layer, expert),
            r.1 == (if self.tokens == 0 {
                1
            } else {
                self.tokens
            }),
    {
        (
            self.count(layer, expert),
            if self.tokens == 0 {
                1
            } else {
                self.tokens
            },
        )
    }

    /// The selections of each expert of a layer.
    pub fn layer_counts(&self, layer: u32) -> (r: Vec<u64>)
        requires
            self.valid(),
        ensures
            r@ == Seq::new((self.experts as u32) as nat, |e: int| self.count_in(layer, e as u32)),
    {
        let n: u32 = #[verifier::truncate]
        (self.experts as u32);
        let mut out: Vec<u64> = Vec::new();
        let mut e: u32 = 0;
        while e < n
            invariant
                e <= n,
                self.valid(),
                out@ == Seq::new(e as nat, |x: int| self.count_in(layer, x as u32)),
            decreases n - e,
        {
            out.push(self.count(layer, e));
            e += 1;
            assert(out@ =~= Seq::new(e as nat, |x: int| self.count_in(layer, x as u32)));
        }
        out
    }

    /// Experts this layer never selected.
    pub fn dead(&self, layer: u32) -> (r: usize)
        requires
            self.valid(),
        ensures
            r == dead_below(*self, layer, (self.experts as u32) as nat),
    {
        let n: u32 = #[verifier::truncate]
        (self.experts as u32);
        let mut dead: usize = 0;
        let mut e: u32 = 0;
        while e < n
            invariant
                e <= n,
                self.valid(),
                dead <= e,
                dead == dead_below(*self, layer, e as nat),
            decreases n - e,
        {
            if self.count(layer, e) == 0 {
                dead += 1;
            }
            e += 1;
        }
        dead
    }

    /// The selections of a layer's busiest expert, and of all of them.
    pub fn peak(&self, layer: u32) -> (r: (u64, u64))
        requires
            self.valid(),
        ensures
            r.0 == peak_below(*self, layer, (self.experts as u32) as nat),
            r.1 == capped(selected_below(*self, layer, (self.experts as u32) as nat)),
    {
        let n: u32 = #[verifier::truncate]
        (self.experts as u32);
        let mut peak: u64 = 0;
        let mut total: u64 = 0;
        let mut e: u32 = 0;
        while e < n
            invariant
                e <= n,
                self.valid(),
                peak == peak_below(*self, layer, e as nat),
                total == capped(selected_below(*self, layer, e as nat)),
            decreases n - e,
        {
            let k: u64 = self.count(layer, e);
            if k > peak {
                peak = k;
            }
            total = total.saturating_add(k);
            e += 1;
        }
        (peak, total)
    }

    /// Routed layers, ascending. A dense layer never appears in a trace.
    pub fn layers(&self) -> (r: Vec<u32>)
        requires
            self.valid(),
        ensures
            forall|i: int, j: int| 0 <= i < j < r@.len() ==> r@[i] < r@[j],
            forall|l: u32| #[trigger] r@.contains(l) <==> exists|e: u32| self.count_in(l, e) > 0,
    {
        let ghost v = self.tally@;
        let mut out: Vec<u32> = Vec::new();
        let mut i: usize = 0;
        while i < self.tally.len()
            invariant
                i <= v.len(),
                v == self.tally@,
                orderly(v),
                forall|a: int, b: int| 0 <= a < b < out@.len() ==> out@[a] < out@[b],
                forall|a: int| 0 <= a < out@.len() ==> exists|k: int| 0 <= k < i && layer_at(v, k) == #[trigger] out@[a],
                forall|k: int| 0 <= k < i ==> out@.contains(#[trigger] layer_at(v, k)),
                i > 0 ==> out@.len() > 0 && out@.last() == layer_at(v, i - 1),
                i == 0 ==> out@.len() == 0,
            decreases v.len() - i,
        {
            let k: u64 = self.tally.get(i).0;
            let l: u32 = (k / 0x1_0000_0000) as u32;
            assert(layer_at(v, i as int) == l);
            let fresh: bool = out.len() == 0 || out[out.len() - 1] != l;
            let ghost before = out@;
            if fresh {
                out.push(l);
            }
            proof {
                if i > 0 {
                    assert(v[i - 1].0 < v[i as int].0);
                    assert(layer_at(v, i - 1) <= l);
                }
                assert forall|a: int| 0 <= a < out@.len() implies exists|k: int|
                    0 <= k < i + 1 && layer_at(v, k) == #[trigger] out@[a] by {
                    if a < before.len() {
                        assert(out@[a] == before[a]);
                        let k = choose|k: int| 0 <= k < i && layer_at(v, k) == before[a];
                        assert(layer_at(v, k) == out@[a]);
                    } else {
                        assert(layer_at(v, i as int) == out@[a]);
                    }
                }
                assert forall|k: int| 0 <= k < i + 1 implies out@.contains(#[trigger] layer_at(v, k)) by {
                    if k < i {
                        assert(before.contains(layer_at(v, k)));
                        let a = choose|a: int| 0 <= a < before.len() && before[a] == layer_at(v, k);
                        assert(out@[a] == layer_at(v, k));
                    } else {
                        assert(out@[out@.len() - 1] == l);
                    }
                }
            }
            i += 1;
        }
        proof {
            assert forall|l: u32| #[trigger] out@.contains(l) <==> exists|e: u32| self.count_in(l, e) > 0 by {
                if out@.contains(l) {
                    let a = choose|a: int| 0 <= a < out@.len() && out@[a] == l;
                    let k = choose|k: int| 0 <= k < v.len() && layer_at(v, k) == out@[a];
                    let x = v[k].0;
                    lemma_tallied(v, x);
                    lemma_split(x);
                    assert(self.count_in(l, (x % 0x1_0000_0000) as u32) > 0);
                }
                if exists|e: u32| self.count_in(l, e) > 0 {
                    let e = choose|e: u32| self.count_in(l, e) > 0;
                    lemma_tallied(v, key_of(l, e));
                    let k = choose|k: int|
                        0 <= k < v.len() && (#[trigger] v[k]) == (key_of(l, e), tallied(v, key_of(l, e)));
                    assert(layer_at(v, k) == l);
                }
            }
        }
        out
    }
}

/// The layer of entry `i`.
spec fn layer_at(v: Seq<(u64, u64)>, i: int) -> u32 {
    (v[i].0 / 0x1_0000_0000) as u32
}

/// A key is a layer and an expert.
proof fn lemma_split(k: u64)
    ensures
        key_of((k / 0x1_0000_0000) as u32, (k % 0x1_0000_0000) as u32) == k,
{
}

/// A decision that is recorded stays where it is when more lines are read.
proof fn lemma_event(v: Seq<JsonV>, i: nat, n: nat)
    requires
        i <= n <= v.len(),
    ensures
        events_in(v, i).len() <= events_in(v, n).len(),
        forall|k: int| 0 <= k < events_in(v, i).len() ==> events_in(v, n)[k] == events_in(v, i)[k],
    decreases n,
{
    if i < n {
        lemma_event(v, i, (n - 1) as nat);
    }
}

fn number_in(v: &Json, key: &str) -> (r: u64)
    ensures
        r == number_at(v@, key@),
{
    match v.field(key).as_u64() {
        Some(n) => n,
        None => 0,
    }
}

fn heads_in(v: &Json) -> (r: Vec<u32>)
    ensures
        r@ == pair_heads(elements(v@), elements(v@).len()),
{
    let n: usize = v.count();
    let ghost e = elements(v@);
    let mut out: Vec<u32> = Vec::new();
    let mut i: usize = 0;
    while i < n
        invariant
            i <= n,
            n == e.len(),
            e == elements(v@),
            out@ == pair_heads(e, i as nat),
        decreases n - i,
    {
        let pair: &Json = v.item(i);
        if pair.count() > 0 {
            if let Some(x) = pair.item(0).as_u64() {
                out.push(
                    #[verifier::truncate]
                    (x as u32),
                );
            }
        }
        i += 1;
    }
    out
}

/// A pair with its score: its selections, and its key.
pub open spec fn pair_scored(c: Counts, p: (u32, u32)) -> (u64, u64) {
    (c.count_in(p.0, p.1), key_of(p.0, p.1))
}

/// The strongest experts of a layer, at most `n`, strongest first: those left out
/// are outranked by all that are named.
pub open spec fn strongest(c: Counts, layer: u32, n: int, r: Seq<u32>) -> bool {
    &&& r.len() <= n
    &&& forall|i: int, j: int| 0 <= i < j < r.len() ==> outranks(scored(c, layer, #[trigger] r[i]), scored(c, layer, #[trigger] r[j]))
    &&& forall|i: int| 0 <= i < r.len() ==> (#[trigger] r[i]) < c.experts as u32 && c.count_in(layer, r[i]) > 0
    &&& forall|e: u32|
        e < c.experts as u32 && #[trigger] c.count_in(layer, e) > 0 && !r.contains(e) ==> r.len() == n && forall|i: int|
            0 <= i < r.len() ==> outranks(scored(c, layer, #[trigger] r[i]), scored(c, layer, e))
}

/// The `n` busiest experts of a layer, ascending: the unused count as least busy,
/// and the lower number goes first among equals.
pub open spec fn busiest(c: Counts, layer: u32, n: int, r: Seq<u32>) -> bool {
    &&& r.len() == (if n < c.experts {
        n
    } else {
        c.experts as int
    })
    &&& forall|i: int, j: int| 0 <= i < j < r.len() ==> r[i] < r[j]
    &&& forall|i: int| 0 <= i < r.len() ==> (#[trigger] r[i]) < c.experts
    &&& forall|a: u32, b: u32|
        #![trigger r.contains(a), scored(c, layer, b)]
        r.contains(a) && b < c.experts && !r.contains(b) ==> outranks(scored(c, layer, a), scored(c, layer, b))
}

impl Counts {
    /// The pairs touched, the routed layers and the experts: what coverage is a
    /// fraction of.
    pub fn coverage(&self) -> (r: (usize, usize, usize))
        requires
            self.valid(),
        ensures
            r.0 == self.listed().len(),
            r.2 == self.experts,
            exists|l: Seq<u32>|
                {
                    &&& #[trigger] l.len() == r.1
                    &&& forall|i: int, j: int| 0 <= i < j < l.len() ==> l[i] < l[j]
                    &&& forall|x: u32| #[trigger] l.contains(x) <==> exists|e: u32| self.count_in(x, e) > 0
                },
    {
        let l: Vec<u32> = self.layers();
        assert(l@.len() == l.len());
        (self.tally.len(), l.len(), self.experts)
    }

    /// Every `(layer, expert)` this trace touched, busiest first.
    ///
    /// Routing is skewed, so the head of this list is where a residency budget
    /// buys the most: pinning it keeps the experts a workload actually uses out
    /// of the way of eviction.
    pub fn hottest(&self) -> (r: Vec<(u32, u32)>)
        requires
            self.valid(),
        ensures
            forall|i: int, j: int|
                0 <= i < j < r@.len() ==> outranks(pair_scored(*self, #[trigger] r@[i]), pair_scored(*self, #[trigger] r@[j])),
            forall|l: u32, e: u32| #[trigger] r@.contains((l, e)) <==> self.count_in(l, e) > 0,
    {
        let ghost v = self.tally@;
        let mut ranking = Ranking::new();
        let mut i: usize = 0;
        while i < self.tally.len()
            invariant
                i <= v.len(),
                v == self.tally@,
                ranking.valid(),
                forall|x: (u64, u64)| #[trigger]
                    ranking@.contains(x) <==> exists|k: int| 0 <= k < i && (#[trigger] v[k]) == (x.1, x.0),
            decreases v.len() - i,
        {
            let e: (u64, u64) = self.tally.get(i);
            let ghost before = ranking@;
            ranking.add(e.1, e.0);
            proof {
                assert forall|x: (u64, u64)| #[trigger] ranking@.contains(x) <==> exists|k: int|
                    0 <= k < i + 1 && (#[trigger] v[k]) == (x.1, x.0) by {
                    if before.contains(x) {
                        let k = choose|k: int| 0 <= k < i && (#[trigger] v[k]) == (x.1, x.0);
                        assert(v[k] == (x.1, x.0));
                    }
                    if x == (e.1, e.0) {
                        assert(v[i as int] == (x.1, x.0));
                    }
                    if exists|k: int| 0 <= k < i + 1 && (#[trigger] v[k]) == (x.1, x.0) {
                        let k = choose|k: int| 0 <= k < i + 1 && (#[trigger] v[k]) == (x.1, x.0);
                        if k < i {
                            assert(before.contains(x));
                        }
                    }
                }
            }
            i += 1;
        }
        let mut out: Vec<(u32, u32)> = Vec::new();
        let mut j: usize = 0;
        while j < ranking.len()
            invariant
                j <= ranking@.len(),
                out@.len() == j,
                forall|k: int| 0 <= k < j ==> key_of((#[trigger] out@[k]).0, out@[k].1) == ranking@[k].1,
            decreases ranking@.len() - j,
        {
            let k: u64 = ranking.get(j).1;
            proof {
                lemma_split(k);
            }
            out.push(((k / 0x1_0000_0000) as u32, (k % 0x1_0000_0000) as u32));
            j += 1;
        }
        proof {
            assert forall|k: int| 0 <= k < out@.len() implies pair_scored(*self, #[trigger] out@[k]) == ranking@[k] by {
                assert(ranking@.contains(ranking@[k]));
                let m = choose|m: int| 0 <= m < v.len() && (#[trigger] v[m]) == (ranking@[k].1, ranking@[k].0);
                lemma_tallied(v, ranking@[k].1);
            }
            assert forall|l: u32, e: u32| #[trigger] out@.contains((l, e)) <==> self.count_in(l, e) > 0 by {
                lemma_tallied(v, key_of(l, e));
                if out@.contains((l, e)) {
                    let k = choose|k: int| 0 <= k < out@.len() && out@[k] == (l, e);
                    assert(pair_scored(*self, out@[k]) == ranking@[k]);
                    assert(ranking@.contains(ranking@[k]));
                    let m = choose|m: int| 0 <= m < v.len() && (#[trigger] v[m]) == (ranking@[k].1, ranking@[k].0);
                    assert(v[m].1 > 0);
                }
                if self.count_in(l, e) > 0 {
                    let m = choose|m: int|
                        0 <= m < v.len() && (#[trigger] v[m]) == (key_of(l, e), tallied(v, key_of(l, e)));
                    let x = (self.count_in(l, e), key_of(l, e));
                    assert(v[m] == (x.1, x.0));
                    assert(ranking@.contains(x));
                    let k = choose|k: int| 0 <= k < ranking@.len() && ranking@[k] == x;
                    lemma_key(out@[k].0, out@[k].1, l, e);
                    assert(out@[k] == (l, e));
                }
            }
        }
        out
    }

    /// The experts below `n` of a layer by their selections; those never selected
    /// only where asked for.
    fn ranked(&self, layer: u32, n: u32, unused: bool) -> (r: Ranking)
        requires
            self.valid(),
        ensures
            r.valid(),
            forall|x: (u64, u64)| #[trigger]
                r@.contains(x) <==> x.1 < n && x == scored(*self, layer, x.1 as u32) && (unused || x.0 > 0),
            unused ==> r@.len() == n,
    {
        let mut ranking = Ranking::new();
        let mut e: u32 = 0;
        while e < n
            invariant
                e <= n,
                self.valid(),
                ranking.valid(),
                forall|x: (u64, u64)| #[trigger]
                    ranking@.contains(x) <==> x.1 < e && x == scored(*self, layer, x.1 as u32) && (unused || x.0 > 0),
                unused ==> ranking@.len() == e,
            decreases n - e,
        {
            let k: u64 = self.count(layer, e);
            if unused || k > 0 {
                ranking.add(k, e as u64);
            }
            e += 1;
        }
        ranking
    }

    /// Strongest `n` experts in a layer, with their selections, strongest first.
    pub fn top(&self, layer: u32, n: usize) -> (r: Vec<(u32, u64)>)
        requires
            self.valid(),
        ensures
            strongest(*self, layer, n as int, Seq::new(r@.len(), |i: int| r@[i].0)),
            forall|i: int| 0 <= i < r@.len() ==> (#[trigger] r@[i]).1 == self.count_in(layer, r@[i].0),
    {
        let m: u32 = #[verifier::truncate]
        (self.experts as u32);
        let ranking: Ranking = self.ranked(layer, m, false);
        let mut out: Vec<(u32, u64)> = Vec::new();
        let mut i: usize = 0;
        while i < ranking.len() && i < n
            invariant
                i <= ranking@.len(),
                i <= n,
                out@.len() == i,
                ranking.valid(),
                forall|k: int| 0 <= k < i ==> (#[trigger] out@[k]).0 == ranking@[k].1 as u32 && out@[k].1 == ranking@[k].0,
            decreases ranking@.len() - i,
        {
            let x: (u64, u64) = ranking.get(i);
            out.push((#[verifier::truncate] (x.1 as u32), x.0));
            i += 1;
        }
        proof {
            let r = Seq::new(out@.len(), |k: int| out@[k].0);
            assert forall|k: int| 0 <= k < out@.len() implies scored(*self, layer, #[trigger] r[k]) == ranking@[k] && r[k]
                < m && self.count_in(layer, r[k]) > 0 && out@[k].1 == self.count_in(layer, out@[k].0) by {
                assert(ranking@.contains(ranking@[k]));
            }
            assert forall|k: int| 0 <= k < out@.len() implies (#[trigger] out@[k]).1 == self.count_in(layer, out@[k].0) by {
                assert(r[k] == out@[k].0);
            }
            assert forall|e: u32|
                e < m && #[trigger] self.count_in(layer, e) > 0 && !r.contains(e) implies r.len() == n && forall|k: int|
                0 <= k < r.len() ==> outranks(scored(*self, layer, #[trigger] r[k]), scored(*self, layer, e)) by {
                let x = scored(*self, layer, e);
                assert(ranking@.contains(x));
                let p = choose|p: int| 0 <= p < ranking@.len() && ranking@[p] == x;
                if p < out@.len() {
                    assert(r[p] == e);
                    assert(false);
                }
            }
        }
        out
    }

    /// The `width` busiest experts of a layer, ascending.
    #[verifier::loop_isolation(false)]
    fn busy(&self, layer: u32, width: usize) -> (r: Vec<u32>)
        requires
            self.valid(),
            self.experts <= u32::MAX,
        ensures
            busiest(*self, layer, width as int, r@),
    {
        let n: u32 = self.experts as u32;
        let ranking: Ranking = self.ranked(layer, n, true);
        let ghost q = ranking@;
        let ghost cut: int = if width < n {
            width as int
        } else {
            n as int
        };
        let mut flags: Vec<bool> = Vec::new();
        let mut e: u32 = 0;
        while e < n
            invariant
                e <= n,
                flags@.len() == e,
                forall|k: int| 0 <= k < e ==> flags@[k] == false,
            decreases n - e,
        {
            flags.push(false);
            e += 1;
        }
        let mut i: usize = 0;
        while i < ranking.len() && i < width
            invariant
                i <= q.len(),
                i <= width,
                flags@.len() == n,
                forall|k: int| 0 <= k < n ==> (#[trigger] flags@[k] <==> exists|m: int| 0 <= m < i && (#[trigger] q[m]).1 == k),
            decreases q.len() - i,
        {
            let x: (u64, u64) = ranking.get(i);
            assert(q.contains(q[i as int]));
            let ghost before = flags@;
            flags.set(x.1 as usize, true);
            proof {
                assert forall|k: int| 0 <= k < n implies (#[trigger] flags@[k] <==> exists|m: int|
                    0 <= m < i + 1 && (#[trigger] q[m]).1 == k) by {
                    if k == x.1 {
                        assert(q[i as int].1 == k);
                    } else {
                        assert(flags@[k] == before[k]);
                        if before[k] {
                            let m = choose|m: int| 0 <= m < i && (#[trigger] q[m]).1 == k;
                            assert(q[m].1 == k);
                        }
                        if exists|m: int| 0 <= m < i + 1 && (#[trigger] q[m]).1 == k {
                            let m = choose|m: int| 0 <= m < i + 1 && (#[trigger] q[m]).1 == k;
                            assert(m < i);
                        }
                    }
                }
            }
            i += 1;
        }
        assert(i == cut);
        let mut out: Vec<u32> = Vec::new();
        let mut e: u32 = 0;
        while e < n
            invariant
                e <= n,
                forall|a: int, b: int| 0 <= a < b < out@.len() ==> out@[a] < out@[b],
                forall|a: int| 0 <= a < out@.len() ==> (#[trigger] out@[a]) < e,
                forall|x: u32| #[trigger] out@.contains(x) <==> x < e && flags@[x as int],
            decreases n - e,
        {
            let ghost before = out@;
            if flags[e as usize] {
                out.push(e);
            }
            proof {
                assert forall|x: u32| #[trigger] out@.contains(x) <==> x < e + 1 && flags@[x as int] by {
                    if before.contains(x) {
                        let a = choose|a: int| 0 <= a < before.len() && before[a] == x;
                        assert(out@[a] == x);
                    }
                    if x == e && flags@[x as int] {
                        assert(out@[out@.len() - 1] == x);
                    }
                    if out@.contains(x) {
                        let a = choose|a: int| 0 <= a < out@.len() && out@[a] == x;
                        if a < before.len() {
                            assert(before[a] == x);
                        }
                    }
                }
            }
            e += 1;
        }
        proof {
            self.lemma_busy(layer, q, cut, out@);
        }
        out
    }

    /// The first so many of a full ranking, as a set, are the busiest.
    proof fn lemma_busy(self, layer: u32, q: Seq<(u64, u64)>, cut: int, r: Seq<u32>)
        requires
            descending(q),
            q.len() == self.experts,
            self.experts <= u32::MAX,
            0 <= cut <= q.len(),
            forall|x: (u64, u64)| #[trigger] q.contains(x) <==> x.1 < self.experts && x == scored(self, layer, x.1 as u32),
            forall|i: int, j: int| 0 <= i < j < r.len() ==> r[i] < r[j],
            forall|x: u32| #[trigger]
                r.contains(x) <==> x < self.experts && exists|m: int| 0 <= m < cut && (#[trigger] q[m]).1 == x,
        ensures
            r.len() == cut,
            forall|i: int| 0 <= i < r.len() ==> (#[trigger] r[i]) < self.experts,
            forall|a: u32, b: u32|
                #![trigger r.contains(a), scored(self, layer, b)]
                r.contains(a) && b < self.experts && !r.contains(b) ==> outranks(
                    scored(self, layer, a),
                    scored(self, layer, b),
                ),
    {
        assert forall|i: int| 0 <= i < r.len() implies (#[trigger] r[i]) < self.experts by {
            assert(r.contains(r[i]));
        }
        assert forall|a: u32, b: u32|
            #![trigger r.contains(a), scored(self, layer, b)]
            r.contains(a) && b < self.experts && !r.contains(b) implies outranks(
            scored(self, layer, a),
            scored(self, layer, b),
        ) by {
            let m = choose|m: int| 0 <= m < cut && (#[trigger] q[m]).1 == a;
            assert(q.contains(q[m]));
            let x = scored(self, layer, b);
            assert(q.contains(x));
            let p = choose|p: int| 0 <= p < q.len() && q[p] == x;
            if p < cut {
                assert(q[p].1 == b);
                assert(r.contains(b));
            }
            assert(outranks(q[m], q[p]));
        }
        // As many as were marked: the two lists name the same experts, none twice.
        let ids = Seq::new(cut as nat, |m: int| q[m].1 as u32);
        assert forall|m: int| 0 <= m < cut implies (#[trigger] q[m]).1 < self.experts by {
            assert(q.contains(q[m]));
        }
        assert(ids.no_duplicates()) by {
            assert forall|i: int, j: int| 0 <= i < ids.len() && 0 <= j < ids.len() && i != j implies ids[i]
                != ids[j] by {
                assert(q.contains(q[i]) && q.contains(q[j]));
                if ids[i] == ids[j] {
                    assert(q[i] == q[j]);
                    if i < j {
                        assert(outranks(q[i], q[j]));
                    } else {
                        assert(outranks(q[j], q[i]));
                    }
                }
            }
        }
        assert(r.no_duplicates()) by {
            assert forall|i: int, j: int| 0 <= i < r.len() && 0 <= j < r.len() && i != j implies r[i] != r[j] by {
                if i < j {
                    assert(r[i] < r[j]);
                } else {
                    assert(r[j] < r[i]);
                }
            }
        }
        ids.unique_seq_to_set();
        r.unique_seq_to_set();
        assert(ids.to_set() =~= r.to_set()) by {
            assert forall|x: u32| ids.to_set().contains(x) <==> r.to_set().contains(x) by {
                if ids.to_set().contains(x) {
                    let m = choose|m: int| 0 <= m < ids.len() && ids[m] == x;
                    assert(q[m].1 == x);
                    assert(r.contains(x));
                }
                if r.to_set().contains(x) {
                    assert(r.contains(x));
                    let m = choose|m: int| 0 <= m < cut && (#[trigger] q[m]).1 == x;
                    assert(ids[m] == x);
                }
            }
        }
    }

    /// How many experts a layer keeps of `width` asked for: at least those a token
    /// is given, at most those there are.
    pub open spec fn kept_width(self, width: usize, top_k: usize) -> int {
        let low: int = if top_k < 1 {
            1
        } else {
            top_k as int
        };
        let high: int = if self.experts < 1 {
            1
        } else {
            self.experts as int
        };
        if width < low {
            low
        } else if width > high {
            high
        } else {
            width as int
        }
    }

    /// A pruning plan keeping the `width` busiest experts in each layer.
    ///
    /// Every layer keeps the same *number*, because a config declares one expert
    /// count, but the sets differ, which is where the specialisation lives. A
    /// layer the trace barely exercised is topped up with its lowest-numbered
    /// unused experts, so the shape stays uniform rather than the model becoming
    /// unloadable.
    pub fn prune_plan(&self, layers: usize, width: usize, top_k: usize) -> (p: Prune)
        requires
            self.valid(),
            self.experts <= u32::MAX,
            top_k <= self.experts || top_k <= 1,
        ensures
            p.top_k == top_k,
            p.keep@.len() == layers,
            forall|l: int|
                0 <= l < layers ==> busiest(*self, l as u32, self.kept_width(width, top_k), (#[trigger] p.keep@[l])@),
    {
        let low: usize = if top_k < 1 {
            1
        } else {
            top_k
        };
        let high: usize = if self.experts < 1 {
            1
        } else {
            self.experts
        };
        let w: usize = if width < low {
            low
        } else if width > high {
            high
        } else {
            width
        };
        let mut keep: Vec<Vec<u32>> = Vec::new();
        let mut l: usize = 0;
        while l < layers
            invariant
                l <= layers,
                self.valid(),
                self.experts <= u32::MAX,
                w == self.kept_width(width, top_k),
                keep@.len() == l,
                forall|k: int| 0 <= k < l ==> busiest(*self, k as u32, w as int, (#[trigger] keep@[k])@),
            decreases layers - l,
        {
            let layer: u32 = #[verifier::truncate]
            (l as u32);
            keep.push(self.busy(layer, w));
            l += 1;
        }
        Prune { keep, top_k }
    }
}

/// A pruning plan is uniform, and a token's experts are among those kept: every
/// layer keeps as many experts as every other, and no fewer than a token is given,
/// where there are that many.
pub proof fn law_pruning_is_uniform(c: Counts, width: usize, top_k: usize, a: u32, x: Seq<u32>, b: u32, y: Seq<u32>)
    requires
        top_k <= c.experts,
        busiest(c, a, c.kept_width(width, top_k), x),
        busiest(c, b, c.kept_width(width, top_k), y),
    ensures
        x.len() == y.len(),
        x.len() >= top_k,
{
}

/// How many experts of a layer are selected at all.
pub open spec fn reached(c: Counts, layer: u32) -> int {
    (c.experts as u32) - dead_below(c, layer, (c.experts as u32) as nat)
}

proof fn lemma_dead_bound(c: Counts, layer: u32, n: nat)
    ensures
        dead_below(c, layer, n) <= n,
        (n <= u32::MAX as nat + 1 && forall|e: u32| e < n ==> #[trigger] c.count_in(layer, e) == 0) ==> dead_below(c, layer, n)
            == n,
    decreases n,
{
    if n > 0 {
        lemma_dead_bound(c, layer, (n - 1) as nat);
    }
}

impl Counts {
    /// The most experts that any layer selects: how wide a pruned model has to be to hold
    /// them all.
    pub fn widest(&self) -> (r: usize)
        requires
            self.valid(),
        ensures
            forall|l: u32| #[trigger] reached(*self, l) <= r,
            r == 0 || exists|l: u32| #[trigger] reached(*self, l) == r,
    {
        let ids = self.layers();
        let n: u32 = #[verifier::truncate]
        (self.experts as u32);
        let mut most: usize = 0;
        let mut i: usize = 0;
        while i < ids.len()
            invariant
                i <= ids@.len(),
                self.valid(),
                n == self.experts as u32,
                forall|k: int| 0 <= k < i ==> reached(*self, #[trigger] ids@[k]) <= most,
                most == 0 || exists|l: u32| #[trigger] reached(*self, l) == most,
            decreases ids.len() - i,
        {
            let dead: usize = self.dead(ids[i]);
            proof {
                lemma_dead_bound(*self, ids@[i as int], n as nat);
            }
            let alive: usize = n as usize - dead;
            assert(reached(*self, ids@[i as int]) == alive);
            if alive > most {
                most = alive;
            }
            i += 1;
        }
        proof {
            assert forall|l: u32| #[trigger] reached(*self, l) <= most by {
                if ids@.contains(l) {
                    let k = choose|k: int| 0 <= k < ids@.len() && ids@[k] == l;
                    assert(reached(*self, ids@[k]) <= most);
                } else {
                    assert forall|e: u32| e < n implies #[trigger] self.count_in(l, e) == 0 by {
                        if self.count_in(l, e) > 0 {
                            assert(ids@.contains(l));
                        }
                    }
                    lemma_dead_bound(*self, l, n as nat);
                }
            }
        }
        most
    }
}

/// Experts that are selected, listed in ascending order, and one more that is not listed,
/// are no more than there are.
proof fn lemma_one_too_many(c: Counts, layer: u32, r: Seq<u32>, b: u32, m: nat)
    requires
        m <= u32::MAX,
        forall|i: int, j: int| 0 <= i < j < r.len() ==> r[i] < r[j],
        forall|i: int| 0 <= i < r.len() ==> (#[trigger] r[i]) < m && c.count_in(layer, r[i]) > 0 && r[i] != b,
        b < m,
        c.count_in(layer, b) > 0,
    ensures
        r.len() + 1 <= m - dead_below(c, layer, m),
    decreases m,
{
    if b == m - 1 {
        lemma_no_more(c, layer, r, (m - 1) as nat);
    } else if r.len() > 0 && r.last() == m - 1 {
        let s = r.drop_last();
        assert forall|i: int| 0 <= i < s.len() implies (#[trigger] s[i]) < m - 1 && c.count_in(layer, s[i]) > 0 && s[i] != b by {
            assert(s[i] == r[i] && r[i] < r[r.len() - 1]);
        }
        lemma_one_too_many(c, layer, s, b, (m - 1) as nat);
        assert(c.count_in(layer, r[r.len() - 1]) > 0);
    } else {
        assert forall|i: int| 0 <= i < r.len() implies (#[trigger] r[i]) < m - 1 by {
            if i < r.len() - 1 {
                assert(r[i] < r[r.len() - 1]);
            }
        }
        lemma_one_too_many(c, layer, r, b, (m - 1) as nat);
    }
}

/// Experts that are selected, listed in ascending order, are no more than there are.
proof fn lemma_no_more(c: Counts, layer: u32, r: Seq<u32>, m: nat)
    requires
        m <= u32::MAX,
        forall|i: int, j: int| 0 <= i < j < r.len() ==> r[i] < r[j],
        forall|i: int| 0 <= i < r.len() ==> (#[trigger] r[i]) < m && c.count_in(layer, r[i]) > 0,
    ensures
        r.len() <= m - dead_below(c, layer, m),
    decreases m,
{
    if m == 0 {
        if r.len() > 0 {
            assert(r[0] < m);
        }
    } else if r.len() > 0 && r.last() == m - 1 {
        let s = r.drop_last();
        assert forall|i: int| 0 <= i < s.len() implies (#[trigger] s[i]) < m - 1 && c.count_in(layer, s[i]) > 0 by {
            assert(s[i] == r[i] && r[i] < r[r.len() - 1]);
        }
        lemma_no_more(c, layer, s, (m - 1) as nat);
        assert(c.count_in(layer, r[r.len() - 1]) > 0);
    } else {
        assert forall|i: int| 0 <= i < r.len() implies (#[trigger] r[i]) < m - 1 by {
            if i < r.len() - 1 {
                assert(r[i] < r[r.len() - 1]);
            }
        }
        lemma_no_more(c, layer, r, (m - 1) as nat);
    }
}

/// A plan that is wide enough keeps every expert that was selected.
pub proof fn law_reached_experts_are_kept(c: Counts, layer: u32, n: int, r: Seq<u32>, e: u32)
    requires
        c.experts <= u32::MAX,
        busiest(c, layer, n, r),
        reached(c, layer) <= n,
        e < c.experts,
        c.count_in(layer, e) > 0,
    ensures
        r.contains(e),
{
    if !r.contains(e) {
        let m = c.experts as nat;
        assert forall|i: int| 0 <= i < r.len() implies (#[trigger] r[i]) < m && c.count_in(layer, r[i]) > 0 && r[i] != e by {
            assert(r.contains(r[i]));
            assert(outranks(scored(c, layer, r[i]), scored(c, layer, e)));
        }
        lemma_one_too_many(c, layer, r, e, m);
        lemma_dead_bound(c, layer, m);
    }
}

/// Two runs, for the difference between them.
pub struct Diff {
    pub a: Counts,
    pub b: Counts,
}

impl Diff {
    /// The layers that either run routed, ascending.
    pub fn layers(&self) -> (r: Vec<u32>)
        requires
            self.a.valid(),
            self.b.valid(),
        ensures
            forall|i: int, j: int| 0 <= i < j < r@.len() ==> r@[i] < r@[j],
            forall|l: u32| #[trigger]
                r@.contains(l) <==> (exists|e: u32| self.a.count_in(l, e) > 0) || (exists|e: u32|
                    self.b.count_in(l, e) > 0),
    {
        let x: Vec<u32> = self.a.layers();
        let y: Vec<u32> = self.b.layers();
        merge(&x, &y)
    }

    pub fn experts(&self) -> (r: usize)
        ensures
            r == (if self.a.experts > self.b.experts {
                self.a.experts
            } else {
                self.b.experts
            }),
    {
        if self.a.experts > self.b.experts {
            self.a.experts
        } else {
            self.b.experts
        }
    }
}

/// What an expert's share of the tokens is out of, in a run.
pub open spec fn total_of(c: Counts) -> int {
    if c.tokens == 0 {
        1
    } else {
        c.tokens as int
    }
}

/// How far two runs differ over an expert. Sizes are in units of a share of all pairs of
/// their tokens (see [`Diff::whole`]), so that they can be compared exactly.
#[derive(Clone, Copy, PartialEq, Eq, Debug, Structural)]
pub struct Gap {
    pub layer: u32,
    pub expert: u32,
    /// Whether the first run favours it.
    pub first: bool,
    pub size: u128,
}

/// Whether a gap is listed before another: the wider one, or the one with the lower
/// numbers.
pub open spec fn before(x: Gap, y: Gap) -> bool {
    x.size > y.size || (x.size == y.size && (x.layer < y.layer || (x.layer == y.layer && x.expert < y.expert)))
}

/// Whether gaps are listed in order.
pub open spec fn in_order(v: Seq<Gap>) -> bool {
    forall|i: int, j: int| 0 <= i < j < v.len() ==> before(#[trigger] v[i], #[trigger] v[j])
}

impl Diff {
    /// The first run's share of an expert less the second's, times [`Diff::whole`].
    pub open spec fn shift(self, layer: u32, expert: u32) -> int {
        self.a.count_in(layer, expert) * total_of(self.b) - self.b.count_in(layer, expert) * total_of(self.a)
    }

    /// What shares are counted in: one over the product of the tokens of both runs.
    pub open spec fn whole(self) -> int {
        total_of(self.a) * total_of(self.b)
    }

    /// The gap over an expert.
    pub open spec fn gap_over(self, layer: u32, expert: u32) -> Gap {
        let d = self.shift(layer, expert);
        Gap {
            layer,
            expert,
            first: d > 0,
            size: (if d > 0 {
                d
            } else {
                -d
            }) as u128,
        }
    }

    /// Whether a gap is wide enough to be listed: more than a millionth.
    pub open spec fn notable(self, g: Gap) -> bool {
        g.size * 1_000_000 > self.whole()
    }

    /// The widest gaps, at most `n`, widest first: those left out come after all that are
    /// listed.
    pub open spec fn widest(self, n: int, r: Seq<Gap>) -> bool {
        let experts = if self.a.experts > self.b.experts {
            self.a.experts as u32
        } else {
            self.b.experts as u32
        };
        &&& r.len() <= n
        &&& in_order(r)
        &&& forall|i: int|
            0 <= i < r.len() ==> (#[trigger] r[i]) == self.gap_over(r[i].layer, r[i].expert) && self.notable(r[i])
                && r[i].expert < experts
        &&& forall|l: u32, e: u32|
            e < experts && self.notable(#[trigger] self.gap_over(l, e)) && !r.contains(self.gap_over(l, e)) ==> r.len()
                == n && forall|i: int| 0 <= i < r.len() ==> before(#[trigger] r[i], self.gap_over(l, e))
    }

    proof fn lemma_shift(self, layer: u32, expert: u32)
        ensures
            -u128::MAX <= self.shift(layer, expert) <= u128::MAX,
            0 <= self.a.count_in(layer, expert) * total_of(self.b) <= u128::MAX,
            0 <= self.b.count_in(layer, expert) * total_of(self.a) <= u128::MAX,
            0 < self.whole() <= u128::MAX,
    {
        lemma_product(self.a.count_in(layer, expert) as int, total_of(self.b));
        lemma_product(self.b.count_in(layer, expert) as int, total_of(self.a));
        lemma_product(total_of(self.a), total_of(self.b));
        assert(total_of(self.a) * total_of(self.b) > 0) by (nonlinear_arith)
            requires
                total_of(self.a) > 0,
                total_of(self.b) > 0,
        ;
    }

    /// The first run's share of an expert less the second's: whether it is above zero, its
    /// size, and what that is out of.
    pub fn share(&self, layer: u32, expert: u32) -> (r: (bool, u128, u128))
        requires
            self.a.valid(),
            self.b.valid(),
        ensures
            r.0 == self.gap_over(layer, expert).first,
            r.1 == self.gap_over(layer, expert).size,
            r.2 == self.whole(),
    {
        proof {
            self.lemma_shift(layer, expert);
        }
        let (x, ta): (u64, usize) = self.a.share(layer, expert);
        let (y, tb): (u64, usize) = self.b.share(layer, expert);
        let p: u128 = x as u128 * tb as u128;
        let q: u128 = y as u128 * ta as u128;
        let whole: u128 = ta as u128 * tb as u128;
        if p > q {
            (true, p - q, whole)
        } else {
            (false, q - p, whole)
        }
    }

    /// The largest divergence, and what it is out of.
    pub fn span(&self) -> (r: (u128, u128))
        requires
            self.a.valid(),
            self.b.valid(),
        ensures
            r.1 == self.whole(),
            ({
                let experts = if self.a.experts > self.b.experts {
                    self.a.experts as u32
                } else {
                    self.b.experts as u32
                };
                &&& forall|l: u32, e: u32| e < experts ==> (#[trigger] self.gap_over(l, e)).size <= r.0
                &&& r.0 > 0 ==> exists|l: u32, e: u32| e < experts && (#[trigger] self.gap_over(l, e)).size == r.0
            }),
    {
        let layers: Vec<u32> = self.layers();
        let experts: u32 = #[verifier::truncate]
        (self.experts() as u32);
        let whole: u128 = self.share(0, 0).2;
        let mut most: u128 = 0;
        let mut i: usize = 0;
        while i < layers.len()
            invariant
                self.a.valid(),
                self.b.valid(),
                i <= layers@.len(),
                forall|k: int, e: u32|
                    0 <= k < i && e < experts ==> (#[trigger] self.gap_over(layers@[k], e)).size <= most,
                most > 0 ==> exists|l: u32, e: u32| e < experts && (#[trigger] self.gap_over(l, e)).size == most,
            decreases layers@.len() - i,
        {
            let mut e: u32 = 0;
            let ghost old_most = most;
            while e < experts
                invariant
                    self.a.valid(),
                    self.b.valid(),
                    i < layers@.len(),
                    e <= experts,
                    old_most <= most,
                    forall|k: u32| k < e ==> (#[trigger] self.gap_over(layers@[i as int], k)).size <= most,
                    most > 0 ==> exists|l: u32, e: u32| e < experts && (#[trigger] self.gap_over(l, e)).size == most,
                decreases experts - e,
            {
                let size: u128 = self.share(layers[i], e).1;
                if size > most {
                    most = size;
                    assert(self.gap_over(layers@[i as int], e).size == most);
                }
                e += 1;
            }
            i += 1;
        }
        proof {
            assert forall|l: u32, e: u32| e < experts implies (#[trigger] self.gap_over(l, e)).size <= most by {
                if layers@.contains(l) {
                    let k = choose|k: int| 0 <= k < layers@.len() && layers@[k] == l;
                    assert(self.gap_over(layers@[k], e).size <= most);
                } else {
                    self.lemma_unrouted(l, e);
                }
            }
        }
        (most, whole)
    }

    /// Where neither run routed anything, they do not differ.
    proof fn lemma_unrouted(self, layer: u32, expert: u32)
        requires
            self.a.count_in(layer, expert) == 0,
            self.b.count_in(layer, expert) == 0,
        ensures
            self.gap_over(layer, expert).size == 0,
            self.shift(layer, expert) == 0,
    {
        assert(0 * total_of(self.b) == 0 && 0 * total_of(self.a) == 0) by (nonlinear_arith);
    }

    /// The experts that the runs differ over most, widest first.
    pub fn extremes(&self, n: usize) -> (r: Vec<Gap>)
        requires
            self.a.valid(),
            self.b.valid(),
        ensures
            self.widest(n as int, r@),
    {
        let layers: Vec<u32> = self.layers();
        let experts: u32 = #[verifier::truncate]
        (self.experts() as u32);
        let mut out: Vec<Gap> = Vec::new();
        let mut i: usize = 0;
        while i < layers.len()
            invariant
                self.a.valid(),
                self.b.valid(),
                i <= layers@.len(),
                forall|k: int, m: int| 0 <= k < m < layers@.len() ==> layers@[k] < layers@[m],
                out@.len() <= n,
                in_order(out@),
                forall|k: int| 0 <= k < out@.len() && i < layers@.len() ==> (#[trigger] out@[k]).layer < layers@[i as int],
                self.listed(experts, out@),
                forall|k: int, e: u32|
                    0 <= k < i && e < experts ==> self.covers(n as int, out@, #[trigger] self.gap_over(layers@[k], e)),
            decreases layers@.len() - i,
        {
            let l: u32 = layers[i];
            let mut e: u32 = 0;
            while e < experts
                invariant
                    self.a.valid(),
                    self.b.valid(),
                    i < layers@.len(),
                    l == layers@[i as int],
                    e <= experts,
                    out@.len() <= n,
                    in_order(out@),
                    forall|k: int|
                        0 <= k < out@.len() ==> (#[trigger] out@[k]).layer < l || (out@[k].layer == l && out@[k].expert < e),
                    self.listed(experts, out@),
                    forall|k: int, x: u32|
                        0 <= k < i && x < experts ==> self.covers(n as int, out@, #[trigger] self.gap_over(layers@[k], x)),
                    forall|x: u32| x < e ==> self.covers(n as int, out@, #[trigger] self.gap_over(l, x)),
                decreases experts - e,
            {
                let (first, size, whole): (bool, u128, u128) = self.share(l, e);
                let g = Gap { layer: l, expert: e, first, size };
                assert(g == self.gap_over(l, e));
                let ghost prev = out@;
                let w: u128 = whole / 1_000_000;
                assert(size > w <==> self.notable(g)) by {
                    let d = self.whole();
                    assert(w == d / 1_000_000);
                }
                let mut at: usize = 0;
                if size > w {
                    at = place(&mut out, g, n);
                    proof {
                        lemma_with_gap(prev, at as int, g, n as int);
                    }
                }
                proof {
                    assert(self.covers(n as int, out@, g));
                    assert forall|k: int, x: u32| 0 <= k < i && x < experts implies self.covers(
                        n as int,
                        out@,
                        #[trigger] self.gap_over(layers@[k], x),
                    ) by {
                        assert(self.covers(n as int, prev, self.gap_over(layers@[k], x)));
                        if size > w {
                            lemma_still_covered(*self, n as int, prev, at as int, g, self.gap_over(layers@[k], x));
                        }
                    }
                    assert forall|x: u32| x < e implies self.covers(
                        n as int,
                        out@,
                        #[trigger] self.gap_over(l, x),
                    ) by {
                        assert(self.covers(n as int, prev, self.gap_over(l, x)));
                        if size > w {
                            lemma_still_covered(*self, n as int, prev, at as int, g, self.gap_over(l, x));
                        }
                    }
                    assert forall|k: int| 0 <= k < out@.len() implies (#[trigger] out@[k]).layer < l || (out@[k].layer == l
                        && out@[k].expert < e + 1) by {
                        assert(out@.contains(out@[k]));
                        if out@[k] != g {
                            assert(prev.contains(out@[k]));
                        }
                    }
                    assert(self.listed(experts, out@)) by {
                        assert forall|k: int| 0 <= k < out@.len() implies (#[trigger] out@[k]) == self.gap_over(
                            out@[k].layer,
                            out@[k].expert,
                        ) && self.notable(out@[k]) && out@[k].expert < experts by {
                            assert(out@.contains(out@[k]));
                            if out@[k] != g {
                                assert(prev.contains(out@[k]));
                            }
                        }
                    }
                }
                e += 1;
            }
            i += 1;
        }
        proof {
            assert forall|l: u32, e: u32|
                e < experts && self.notable(#[trigger] self.gap_over(l, e)) && !out@.contains(
                    self.gap_over(l, e),
                ) implies out@.len() == n && forall|i: int|
                0 <= i < out@.len() ==> before(#[trigger] out@[i], self.gap_over(l, e)) by {
                self.lemma_shift(l, e);
                if layers@.contains(l) {
                    let k = choose|k: int| 0 <= k < layers@.len() && layers@[k] == l;
                    assert(self.covers(n as int, out@, self.gap_over(layers@[k], e)));
                } else {
                    self.lemma_unrouted(l, e);
                }
            }
        }
        out
    }

    /// Whether every gap listed is one of this difference, wide enough, and of an expert
    /// below a bound.
    spec fn listed(self, experts: u32, v: Seq<Gap>) -> bool {
        forall|i: int|
            0 <= i < v.len() ==> (#[trigger] v[i]) == self.gap_over(v[i].layer, v[i].expert) && self.notable(v[i])
                && v[i].expert < experts
    }

    /// Whether a gap is listed where it has to be.
    spec fn covers(self, n: int, v: Seq<Gap>, g: Gap) -> bool {
        self.notable(g) && !v.contains(g) ==> v.len() == n && forall|i: int| 0 <= i < v.len() ==> before(#[trigger] v[i], g)
    }
}

proof fn lemma_product(x: int, y: int)
    requires
        0 <= x <= 0xffff_ffff_ffff_ffff,
        0 <= y <= 0xffff_ffff_ffff_ffff,
    ensures
        0 <= x * y <= u128::MAX,
{
    assert(0 <= x * y <= 0xffff_ffff_ffff_ffff * 0xffff_ffff_ffff_ffff) by (nonlinear_arith)
        requires
            0 <= x <= 0xffff_ffff_ffff_ffff,
            0 <= y <= 0xffff_ffff_ffff_ffff,
    ;
}

/// A list with a gap put in at `p`, cut to `n`.
spec fn with_gap(v: Seq<Gap>, p: int, g: Gap, n: int) -> Seq<Gap> {
    let all = v.insert(p, g);
    if all.len() <= n {
        all
    } else {
        all.take(n)
    }
}

/// Whether `p` is where a gap belongs in a list.
spec fn belongs(v: Seq<Gap>, p: int, g: Gap) -> bool {
    &&& 0 <= p <= v.len()
    &&& forall|i: int| 0 <= i < p ==> before(#[trigger] v[i], g)
    &&& forall|i: int| p <= i < v.len() ==> before(g, #[trigger] v[i])
}

proof fn lemma_with_gap(v: Seq<Gap>, p: int, g: Gap, n: int)
    requires
        in_order(v),
        belongs(v, p, g),
        v.len() <= n,
    ensures
        in_order(v.insert(p, g)),
        in_order(with_gap(v, p, g, n)),
        with_gap(v, p, g, n).len() <= n,
        forall|x: Gap| #[trigger] with_gap(v, p, g, n).contains(x) ==> x == g || v.contains(x),
        !with_gap(v, p, g, n).contains(g) ==> with_gap(v, p, g, n).len() == n && forall|i: int|
            0 <= i < n ==> before(#[trigger] with_gap(v, p, g, n)[i], g),
{
    let all = v.insert(p, g);
    let r = with_gap(v, p, g, n);
    assert forall|i: int, j: int| 0 <= i < j < all.len() implies before(#[trigger] all[i], #[trigger] all[j]) by {
        if i < p && j > p {
            assert(before(v[i], v[j - 1]));
        } else if i > p {
            assert(before(v[i - 1], v[j - 1]));
        } else if j < p {
            assert(before(v[i], v[j]));
        }
    }
    assert forall|x: Gap| #[trigger] r.contains(x) implies x == g || v.contains(x) by {
        let k = choose|k: int| 0 <= k < r.len() && r[k] == x;
        if k < p {
            assert(v[k] == x);
        } else if k > p {
            assert(v[k - 1] == x);
        }
    }
    if !r.contains(g) {
        if p < r.len() {
            assert(r[p] == g);
        }
    }
}

proof fn lemma_still_covered(d: Diff, n: int, v: Seq<Gap>, p: int, g: Gap, x: Gap)
    requires
        d.covers(n, v, x),
        in_order(v),
        v.len() <= n,
        belongs(v, p, g),
    ensures
        d.covers(n, with_gap(v, p, g, n), x),
{
    let all = v.insert(p, g);
    let r = with_gap(v, p, g, n);
    lemma_with_gap(v, p, g, n);
    if d.notable(x) && !r.contains(x) {
        if v.contains(x) {
            let k = choose|k: int| 0 <= k < v.len() && v[k] == x;
            let m = if k < p {
                k
            } else {
                k + 1
            };
            assert(all[m] == x);
            if m < r.len() {
                assert(r[m] == x);
            }
            assert forall|i: int| 0 <= i < r.len() implies before(#[trigger] r[i], x) by {
                assert(before(all[i], all[m]));
            }
        } else {
            assert forall|i: int| 0 <= i < r.len() implies before(#[trigger] r[i], x) by {
                if i < p {
                    assert(before(v[i], x));
                } else if i > p {
                    assert(before(v[i - 1], x));
                } else {
                    assert(before(g, v[p]));
                    assert(before(v[p], x));
                }
            }
        }
    }
}

/// Put a gap where it belongs. It comes after those that are as wide, which have lower
/// numbers.
fn place(v: &mut Vec<Gap>, g: Gap, n: usize) -> (p: usize)
    requires
        in_order(old(v)@),
        old(v)@.len() <= n,
        forall|i: int|
            0 <= i < old(v)@.len() ==> (#[trigger] old(v)@[i]).layer < g.layer || (old(v)@[i].layer == g.layer
                && old(v)@[i].expert < g.expert),
    ensures
        belongs(old(v)@, p as int, g),
        final(v)@ == with_gap(old(v)@, p as int, g, n as int),
{
    let mut p: usize = v.len();
    while p > 0 && v[p - 1].size < g.size
        invariant
            p <= v@.len(),
            v@ == old(v)@,
            in_order(v@),
            forall|i: int| p <= i < v@.len() ==> (#[trigger] v@[i]).size < g.size,
        decreases p,
    {
        p -= 1;
    }
    proof {
        assert forall|i: int| 0 <= i < p implies before(#[trigger] v@[i], g) by {
            if i < p - 1 {
                assert(before(v@[i], v@[p - 1]));
            }
        }
    }
    let ghost before_cut = v@.insert(p as int, g);
    if v.len() < n {
        v.insert(p, g);
    } else if p < n {
        v.insert(p, g);
        v.truncate(n);
        assert(v@ =~= before_cut.take(n as int));
    } else {
        assert(v@ =~= before_cut.take(n as int));
    }
    p
}

fn merge(x: &Vec<u32>, y: &Vec<u32>) -> (r: Vec<u32>)
    requires
        forall|i: int, j: int| 0 <= i < j < x@.len() ==> x@[i] < x@[j],
        forall|i: int, j: int| 0 <= i < j < y@.len() ==> y@[i] < y@[j],
    ensures
        forall|i: int, j: int| 0 <= i < j < r@.len() ==> r@[i] < r@[j],
        forall|l: u32| #[trigger] r@.contains(l) <==> x@.contains(l) || y@.contains(l),
{
    let mut out: Vec<u32> = Vec::new();
    let mut i: usize = 0;
    let mut j: usize = 0;
    while i < x.len() || j < y.len()
        invariant
            i <= x@.len(),
            j <= y@.len(),
            forall|a: int, b: int| 0 <= a < b < x@.len() ==> x@[a] < x@[b],
            forall|a: int, b: int| 0 <= a < b < y@.len() ==> y@[a] < y@[b],
            forall|a: int, b: int| 0 <= a < b < out@.len() ==> out@[a] < out@[b],
            forall|a: int, b: int| 0 <= a < out@.len() && i <= b < x@.len() ==> (#[trigger] out@[a]) < (#[trigger] x@[b]),
            forall|a: int, b: int| 0 <= a < out@.len() && j <= b < y@.len() ==> (#[trigger] out@[a]) < (#[trigger] y@[b]),
            forall|l: u32| #[trigger]
                out@.contains(l) <==> x@.take(i as int).contains(l) || y@.take(j as int).contains(l),
        decreases x@.len() - i + y@.len() - j,
    {
        let from_x: bool = j >= y.len() || (i < x.len() && x[i] <= y[j]);
        let from_y: bool = i >= x.len() || (j < y.len() && y[j] <= x[i]);
        let l: u32 = if from_x {
            x[i]
        } else {
            y[j]
        };
        let ghost before = out@;
        let ghost (i0, j0) = (i as int, j as int);
        out.push(l);
        if from_x {
            i += 1;
        }
        if from_y {
            j += 1;
        }
        proof {
            assert forall|k: u32| #[trigger] out@.contains(k) <==> x@.take(i as int).contains(k) || y@.take(
                j as int,
            ).contains(k) by {
                lemma_taken(x@, i0, i as int, k);
                lemma_taken(y@, j0, j as int, k);
                if before.contains(k) {
                    let a = choose|a: int| 0 <= a < before.len() && before[a] == k;
                    assert(out@[a] == k);
                }
                if k == l {
                    assert(out@[before.len() as int] == k);
                }
                if out@.contains(k) {
                    let a = choose|a: int| 0 <= a < out@.len() && out@[a] == k;
                    if a < before.len() {
                        assert(before[a] == k);
                    }
                }
            }
        }
    }
    assert(x@.take(i as int) =~= x@);
    assert(y@.take(j as int) =~= y@);
    out
}

proof fn lemma_taken(v: Seq<u32>, i: int, j: int, k: u32)
    requires
        0 <= i <= j <= v.len(),
        j <= i + 1,
    ensures
        v.take(j).contains(k) <==> v.take(i).contains(k) || (i < j && v[i] == k),
{
    if v.take(j).contains(k) {
        let a = choose|a: int| 0 <= a < j && v.take(j)[a] == k;
        if a < i {
            assert(v.take(i)[a] == k);
        }
    }
    if v.take(i).contains(k) {
        let a = choose|a: int| 0 <= a < i && v.take(i)[a] == k;
        assert(v.take(j)[a] == k);
    }
    if i < j && v[i] == k {
        assert(v.take(j)[i] == k);
    }
}

/// A character as it may stand in a picture's text.
pub open spec fn escaped_char(c: char) -> Seq<char> {
    if c == '&' {
        "&amp;"@
    } else if c == '<' {
        "&lt;"@
    } else if c == '>' {
        "&gt;"@
    } else {
        seq![c]
    }
}

/// A text as it may stand in a picture.
pub open spec fn escaped(s: Seq<char>) -> Seq<char>
    decreases s.len(),
{
    if s.len() == 0 {
        Seq::empty()
    } else {
        escaped(s.drop_last()) + escaped_char(s.last())
    }
}

/// A text as it may stand in a picture.
pub fn escape(s: &str) -> (r: String)
    ensures
        r@ == escaped(s@),
{
    let c = crate::text::chars_of(s);
    let mut out = String::new();
    let mut i: usize = 0;
    assert(s@.take(0) =~= Seq::empty());
    assert(out@ =~= escaped(s@.take(0)));
    while i < c.len()
        invariant
            i <= c@.len(),
            c@ == s@,
            out@ == escaped(s@.take(i as int)),
        decreases c@.len() - i,
    {
        let ghost before = out@;
        let ch: char = c[i];
        if ch == '&' {
            out.append("&amp;");
        } else if ch == '<' {
            out.append("&lt;");
        } else if ch == '>' {
            out.append("&gt;");
        } else {
            out.push(ch);
        }
        i += 1;
        assert(s@.take(i as int).drop_last() =~= s@.take(i - 1));
        assert(out@ =~= before + escaped_char(ch));
    }
    assert(s@.take(i as int) =~= s@);
    out
}

/// Nothing that is escaped can open a tag.
pub proof fn law_escaping_hides_markup(s: Seq<char>, k: int)
    requires
        0 <= k < escaped(s).len(),
    ensures
        escaped(s)[k] != '<',
        escaped(s)[k] != '>',
    decreases s.len(),
{
    if s.len() > 0 {
        reveal_strlit("&amp;");
        reveal_strlit("&lt;");
        reveal_strlit("&gt;");
        let n = escaped(s.drop_last()).len();
        if k < n {
            law_escaping_hides_markup(s.drop_last(), k);
        } else {
            assert(escaped(s)[k] == escaped_char(s.last())[k - n]);
        }
    }
}

/// A number of halves.
pub open spec fn halves(n: nat) -> Seq<char> {
    if n % 2 == 0 {
        decimal_of(n / 2)
    } else {
        decimal_of(n / 2) + ".5"@
    }
}

/// A number of hundredths, with two decimals.
pub open spec fn hundredths(n: nat) -> Seq<char> {
    decimal_of(n / 100) + "."@ + (decimal_of(n / 10 % 10) + decimal_of(n % 10))
}

pub(crate) fn half_text(n: u64) -> (r: String)
    ensures
        r@ == halves(n as nat),
{
    if n % 2 == 0 {
        decimal(n / 2)
    } else {
        join(decimal(n / 2).as_str(), ".5")
    }
}

pub(crate) fn hundredth_text(n: u64) -> (r: String)
    ensures
        r@ == hundredths(n as nat),
{
    let tail = join(decimal(n / 10 % 10).as_str(), decimal(n % 10).as_str());
    join3(decimal(n / 100).as_str(), ".", tail.as_str())
}

} // verus!
