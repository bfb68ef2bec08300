//! Ranking: things by score, the highest first.

use vstd::prelude::*;

verus! {

/// Whether one scored thing comes before another: by the higher score, and by the
/// lower number among equals. Both are pairs of score and number.
pub open spec fn outranks(a: (u64, u64), b: (u64, u64)) -> bool {
    a.0 > b.0 || (a.0 == b.0 && a.1 < b.1)
}

/// Every one outranks those after it.
pub open spec fn descending(v: Seq<(u64, u64)>) -> bool {
    forall|i: int, j: int| 0 <= i < j < v.len() ==> outranks(#[trigger] v[i], #[trigger] v[j])
}

/// Scored things, the highest first, none twice.
pub struct Ranking {
    items: Vec<(u64, u64)>,
}

impl View for Ranking {
    type V = Seq<(u64, u64)>;

    closed spec fn view(&self) -> Seq<(u64, u64)> {
        self.items@
    }
}

impl Ranking {
    pub open spec fn valid(self) -> bool {
        descending(self@)
    }

    pub fn new() -> (r: Ranking)
        ensures
            r.valid(),
            r@ == Seq::<(u64, u64)>::empty(),
    {
        Ranking { items: Vec::new() }
    }

    pub fn len(&self) -> (r: usize)
        ensures
            r == self@.len(),
    {
        self.items.len()
    }

    /// Number `i` from the top.
    pub fn get(&self, i: usize) -> (r: (u64, u64))
        requires
            i < self@.len(),
        ensures
            r == self@[i as int],
    {
        self.items[i]
    }

    /// Add a thing with its score.
    pub fn add(&mut self, score: u64, id: u64)
        requires
            old(self).valid(),
        ensures
            final(self).valid(),
            forall|x: (u64, u64)| #[trigger]
                final(self)@.contains(x) <==> old(self)@.contains(x) || x == (score, id),
            !old(self)@.contains((score, id)) ==> final(self)@.len() == old(self)@.len() + 1,
    {
        let ghost v = self@;
        let ghost x = (score, id);
        let mut lo: usize = 0;
        let mut hi: usize = self.items.len();
        while lo < hi
            invariant
                lo <= hi <= self.items@.len(),
                self.items@ == v,
                x == (score, id),
                descending(v),
                forall|k: int| 0 <= k < lo ==> outranks(#[trigger] v[k], x),
                forall|k: int| hi <= k < v.len() ==> !outranks(#[trigger] v[k], x),
            decreases hi - lo,
        {
            let mid: usize = lo + (hi - lo) / 2;
            let m: (u64, u64) = self.items[mid];
            if m.0 > score || (m.0 == score && m.1 < id) {
                assert forall|k: int| 0 <= k < mid + 1 implies outranks(#[trigger] v[k], x) by {
                    if k < mid {
                        assert(outranks(v[k], v[mid as int]));
                    }
                }
                lo = mid + 1;
            } else {
                assert forall|k: int| mid <= k < v.len() implies !outranks(#[trigger] v[k], x) by {
                    if mid < k {
                        assert(outranks(v[mid as int], v[k]));
                    }
                }
                hi = mid;
            }
        }
        if lo < self.items.len() {
            let m: (u64, u64) = self.items[lo];
            if m.0 == score && m.1 == id {
                assert(v[lo as int] == x);
                assert(v.contains(x));
                return ;
            }
        }
        self.items.insert(lo, (score, id));
        proof {
            let w = v.insert(lo as int, x);
            assert(self.items@ =~= w);
            assert forall|i: int, j: int| 0 <= i < j < w.len() implies outranks(#[trigger] w[i], #[trigger] w[j]) by {
                if j < lo {
                    assert(outranks(v[i], v[j]));
                } else if i < lo && j == lo {
                    assert(w[i] == v[i]);
                } else if i < lo {
                    assert(w[j] == v[j - 1]);
                    assert(outranks(v[i], v[j - 1]));
                } else if i == lo {
                    assert(w[j] == v[j - 1]);
                    assert(!outranks(v[j - 1], x));
                    if v[j - 1] == x {
                        assert(lo < j - 1);
                        assert(outranks(v[lo as int], v[j - 1]));
                    }
                } else {
                    assert(w[i] == v[i - 1] && w[j] == v[j - 1]);
                    assert(outranks(v[i - 1], v[j - 1]));
                }
            }
            assert forall|y: (u64, u64)| #[trigger] w.contains(y) <==> v.contains(y) || y == x by {
                if v.contains(y) {
                    let k = choose|k: int| 0 <= k < v.len() && v[k] == y;
                    if k < lo {
                        assert(w[k] == y);
                    } else {
                        assert(w[k + 1] == y);
                    }
                }
                if y == x {
                    assert(w[lo as int] == y);
                }
                if w.contains(y) {
                    let k = choose|k: int| 0 <= k < w.len() && w[k] == y;
                    if k < lo {
                        assert(v[k] == y);
                    } else if k > lo {
                        assert(v[k - 1] == y);
                    }
                }
            }
        }
    }
}

/// A ranking has no room for two orders: two of the same things are the same.
pub proof fn law_ranking_is_unique(a: Seq<(u64, u64)>, b: Seq<(u64, u64)>)
    requires
        descending(a),
        descending(b),
        forall|x: (u64, u64)| a.contains(x) <==> b.contains(x),
    ensures
        a == b,
    decreases a.len(),
{
    if a.len() == 0 {
        if b.len() > 0 {
            assert(b.contains(b[0]));
            assert(a.contains(b[0]));
        }
        assert(a =~= b);
    } else if b.len() == 0 {
        assert(a.contains(a[0]));
        assert(b.contains(a[0]));
    } else {
        // The first of each outranks all others of the other, so they are one.
        assert(a.contains(a[0]) && b.contains(b[0]));
        assert(b.contains(a[0]) && a.contains(b[0]));
        let i = choose|i: int| 0 <= i < b.len() && b[i] == a[0];
        let j = choose|j: int| 0 <= j < a.len() && a[j] == b[0];
        if i > 0 && j > 0 {
            assert(outranks(b[0], b[i]) && outranks(a[0], a[j]));
        }
        assert(a[0] == b[0]);
        let c = a.drop_first();
        let d = b.drop_first();
        assert forall|x: (u64, u64)| c.contains(x) <==> d.contains(x) by {
            if c.contains(x) {
                let k = choose|k: int| 0 <= k < c.len() && c[k] == x;
                assert(a[k + 1] == x);
                assert(outranks(a[0], a[k + 1]));
                assert(a.contains(x));
                assert(b.contains(x));
                let m = choose|m: int| 0 <= m < b.len() && b[m] == x;
                assert(d[m - 1] == x);
            }
            if d.contains(x) {
                let k = choose|k: int| 0 <= k < d.len() && d[k] == x;
                assert(b[k + 1] == x);
                assert(outranks(b[0], b[k + 1]));
                assert(b.contains(x));
                assert(a.contains(x));
                let m = choose|m: int| 0 <= m < a.len() && a[m] == x;
                assert(c[m - 1] == x);
            }
        }
        assert forall|i: int, j: int| 0 <= i < j < c.len() implies outranks(#[trigger] c[i], #[trigger] c[j]) by {
            assert(outranks(a[i + 1], a[j + 1]));
        }
        assert forall|i: int, j: int| 0 <= i < j < d.len() implies outranks(#[trigger] d[i], #[trigger] d[j]) by {
            assert(outranks(b[i + 1], b[j + 1]));
        }
        law_ranking_is_unique(c, d);
        assert(a =~= seq![a[0]] + c);
        assert(b =~= seq![b[0]] + d);
    }
}

/// A ranking with one thing more, at its place.
pub open spec fn inserted(v: Seq<(u64, u64)>, x: (u64, u64)) -> Seq<(u64, u64)>
    decreases v.len(),
{
    if v.len() == 0 || outranks(x, v[0]) {
        seq![x] + v
    } else {
        seq![v[0]] + inserted(v.drop_first(), x)
    }
}

/// A thing put at its place leaves a ranking that holds it and all that was there.
pub proof fn lemma_inserted(v: Seq<(u64, u64)>, x: (u64, u64))
    requires
        descending(v),
        !v.contains(x),
    ensures
        descending(inserted(v, x)),
        inserted(v, x).len() == v.len() + 1,
        forall|y: (u64, u64)| #[trigger] inserted(v, x).contains(y) <==> v.contains(y) || y == x,
    decreases v.len(),
{
    let w = inserted(v, x);
    if v.len() == 0 || outranks(x, v[0]) {
        assert forall|i: int, j: int| 0 <= i < j < w.len() implies outranks(#[trigger] w[i], #[trigger] w[j]) by {
            if i > 0 {
                assert(outranks(v[i - 1], v[j - 1]));
            } else if j > 1 {
                assert(outranks(v[0], v[j - 1]));
            }
        }
        assert forall|y: (u64, u64)| #[trigger] w.contains(y) <==> v.contains(y) || y == x by {
            if v.contains(y) {
                let k = choose|k: int| 0 <= k < v.len() && v[k] == y;
                assert(w[k + 1] == y);
            }
            if y == x {
                assert(w[0] == y);
            }
            if w.contains(y) {
                let k = choose|k: int| 0 <= k < w.len() && w[k] == y;
                if k > 0 {
                    assert(v[k - 1] == y);
                }
            }
        }
    } else {
        let rest = v.drop_first();
        assert(v[0] != x) by {
            assert(v.contains(v[0]));
        }
        assert(!rest.contains(x)) by {
            if rest.contains(x) {
                let k = choose|k: int| 0 <= k < rest.len() && rest[k] == x;
                assert(v[k + 1] == x);
            }
        }
        assert forall|i: int, j: int| 0 <= i < j < rest.len() implies outranks(#[trigger] rest[i], #[trigger] rest[j]) by {
            assert(outranks(v[i + 1], v[j + 1]));
        }
        lemma_inserted(rest, x);
        let r = inserted(rest, x);
        assert forall|y: (u64, u64)| #[trigger] w.contains(y) <==> v.contains(y) || y == x by {
            if w.contains(y) {
                let k = choose|k: int| 0 <= k < w.len() && w[k] == y;
                if k == 0 {
                    assert(v[0] == y);
                } else {
                    assert(r[k - 1] == y);
                    assert(r.contains(y));
                    if rest.contains(y) {
                        let m = choose|m: int| 0 <= m < rest.len() && rest[m] == y;
                        assert(v[m + 1] == y);
                    }
                }
            }
            if v.contains(y) || y == x {
                if y == v[0] {
                    assert(w[0] == y);
                } else {
                    if v.contains(y) {
                        let m = choose|m: int| 0 <= m < v.len() && v[m] == y;
                        assert(rest[m - 1] == y);
                    }
                    assert(r.contains(y));
                    let k = choose|k: int| 0 <= k < r.len() && r[k] == y;
                    assert(w[k + 1] == y);
                }
            }
        }
        assert forall|i: int, j: int| 0 <= i < j < w.len() implies outranks(#[trigger] w[i], #[trigger] w[j]) by {
            if i > 0 {
                assert(outranks(r[i - 1], r[j - 1]));
            } else {
                let y = w[j];
                assert(r[j - 1] == y);
                assert(r.contains(y));
                if y != x {
                    let m = choose|m: int| 0 <= m < rest.len() && rest[m] == y;
                    assert(outranks(v[0], v[m + 1]));
                }
            }
        }
    }
}

impl Ranking {
    /// Add a thing that is not there yet.
    pub fn enter(&mut self, score: u64, id: u64)
        requires
            old(self).valid(),
            !old(self)@.contains((score, id)),
        ensures
            final(self).valid(),
            final(self)@ == inserted(old(self)@, (score, id)),
    {
        let ghost v = self@;
        self.add(score, id);
        proof {
            lemma_inserted(v, (score, id));
            law_ranking_is_unique(self@, inserted(v, (score, id)));
        }
    }

    /// Keep only the first `n`.
    pub fn cut(&mut self, n: usize)
        requires
            old(self).valid(),
        ensures
            final(self).valid(),
            final(self)@ == (if n < old(self)@.len() {
                old(self)@.take(n as int)
            } else {
                old(self)@
            }),
    {
        let ghost v = self@;
        self.items.truncate(n);
        assert(self@ =~= (if n < v.len() {
            v.take(n as int)
        } else {
            v
        }));
    }
}

/// Those of some scored things whose numbers lie from `lo` to before `hi`.
pub open spec fn ranks_range(r: Seq<(u64, u64)>, scores: Seq<u32>, lo: int, hi: int) -> bool {
    &&& descending(r)
    &&& r.len() == hi - lo
    &&& forall|x: (u64, u64)| #[trigger] r.contains(x) <==> lo <= x.1 < hi && x.0 == scores[x.1 as int]
}

#[verifier::loop_isolation(false)]
fn merge(a: &Vec<(u64, u64)>, b: &Vec<(u64, u64)>, Ghost(scores): Ghost<Seq<u32>>, Ghost(lo): Ghost<int>, Ghost(mid): Ghost<
    int,
>, Ghost(hi): Ghost<int>) -> (out: Vec<(u64, u64)>)
    requires
        0 <= lo <= mid <= hi <= scores.len(),
        ranks_range(a@, scores, lo, mid),
        ranks_range(b@, scores, mid, hi),
    ensures
        ranks_range(out@, scores, lo, hi),
{
    let mut out: Vec<(u64, u64)> = Vec::new();
    let mut i: usize = 0;
    let mut j: usize = 0;
    assert(a@.take(0) =~= Seq::empty());
    assert(b@.take(0) =~= Seq::empty());
    while i < a.len() || j < b.len()
        invariant
            i <= a@.len(),
            j <= b@.len(),
            out@.len() == i + j,
            descending(out@),
            forall|k: int, m: int| 0 <= k < out@.len() && i <= m < a@.len() ==> outranks(#[trigger] out@[k], #[trigger] a@[m]),
            forall|k: int, m: int| 0 <= k < out@.len() && j <= m < b@.len() ==> outranks(#[trigger] out@[k], #[trigger] b@[m]),
            forall|x: (u64, u64)| #[trigger] out@.contains(x) <==> a@.take(i as int).contains(x) || b@.take(j as int).contains(x),
        decreases a@.len() + b@.len() - i - j,
    {
        let ghost before = out@;
        let left: bool = if i == a.len() {
            false
        } else if j == b.len() {
            true
        } else {
            a[i].0 > b[j].0 || (a[i].0 == b[j].0 && a[i].1 < b[j].1)
        };
        proof {
            if i < a@.len() && j < b@.len() {
                assert(a@.contains(a@[i as int]));
                assert(b@.contains(b@[j as int]));
                assert(a@[i as int].1 < mid <= b@[j as int].1);
                assert(left || outranks(b@[j as int], a@[i as int]));
            }
        }
        if left {
            out.push(a[i]);
            i += 1;
            proof {
                assert forall|m: int| j <= m < b@.len() implies outranks(a@[i - 1], #[trigger] b@[m]) by {
                    if m > j {
                        assert(outranks(b@[j as int], b@[m]));
                    }
                }
                assert(a@.take(i as int) =~= a@.take(i - 1).push(a@[i - 1]));
                lemma_pushed(a@.take(i - 1), a@[i - 1]);
            }
        } else {
            out.push(b[j]);
            j += 1;
            proof {
                assert forall|m: int| i <= m < a@.len() implies outranks(b@[j - 1], #[trigger] a@[m]) by {
                    if m > i {
                        assert(outranks(a@[i as int], a@[m]));
                    }
                }
                assert(b@.take(j as int) =~= b@.take(j - 1).push(b@[j - 1]));
                lemma_pushed(b@.take(j - 1), b@[j - 1]);
            }
        }
        proof {
            lemma_pushed(before, out@.last());
        }
    }
    assert(a@.take(i as int) =~= a@);
    assert(b@.take(j as int) =~= b@);
    assert forall|x: (u64, u64)| #[trigger] out@.contains(x) <==> lo <= x.1 < hi && x.0 == scores[x.1 as int] by {
        assert(out@.contains(x) <==> a@.contains(x) || b@.contains(x));
    }
    out
}

proof fn lemma_pushed(v: Seq<(u64, u64)>, y: (u64, u64))
    ensures
        forall|x: (u64, u64)| #[trigger] v.push(y).contains(x) <==> v.contains(x) || x == y,
{
    assert forall|x: (u64, u64)| #[trigger] v.push(y).contains(x) <==> v.contains(x) || x == y by {
        if v.contains(x) {
            let k = choose|k: int| 0 <= k < v.len() && v[k] == x;
            assert(v.push(y)[k] == x);
        }
        if x == y {
            assert(v.push(y)[v.len() as int] == x);
        }
        if v.push(y).contains(x) && x != y {
            let k = choose|k: int| 0 <= k < v.push(y).len() && v.push(y)[k] == x;
            assert(v[k] == x);
        }
    }
}

fn sorted(scores: &Vec<u32>, lo: usize, hi: usize) -> (r: Vec<(u64, u64)>)
    requires
        lo <= hi <= scores@.len(),
    ensures
        ranks_range(r@, scores@, lo as int, hi as int),
    decreases hi - lo,
{
    if hi - lo == 0 {
        let r: Vec<(u64, u64)> = Vec::new();
        assert forall|x: (u64, u64)| #[trigger] r@.contains(x) <==> lo <= x.1 < hi && x.0 == scores@[x.1 as int] by {}
        r
    } else if hi - lo == 1 {
        let mut r: Vec<(u64, u64)> = Vec::new();
        r.push((scores[lo] as u64, lo as u64));
        assert(r@[0] == (scores@[lo as int] as u64, lo as u64));
        assert forall|x: (u64, u64)| #[trigger] r@.contains(x) <==> lo <= x.1 < hi && x.0 == scores@[x.1 as int] by {
            if lo <= x.1 < hi && x.0 == scores@[x.1 as int] {
                assert(x == r@[0]);
            }
        }
        r
    } else {
        let mid: usize = lo + (hi - lo) / 2;
        let a: Vec<(u64, u64)> = sorted(scores, lo, mid);
        let b: Vec<(u64, u64)> = sorted(scores, mid, hi);
        merge(&a, &b, Ghost(scores@), Ghost(lo as int), Ghost(mid as int), Ghost(hi as int))
    }
}

impl Ranking {
    /// All of some scored things, numbered from zero.
    pub fn of(scores: &Vec<u32>) -> (r: Ranking)
        ensures
            r.valid(),
            ranks_range(r@, scores@, 0, scores@.len() as int),
    {
        Ranking { items: sorted(scores, 0, scores.len()) }
    }
}

} // verus!
