//! Tensors by name, kept in the order of their names.

use vstd::prelude::*;
use vstd::string::*;
use crate::quant::Dt;
use crate::text::{chars_of, same};

verus! {

/// A tensor's location and shape. `slabs` is the leading dimension of a fused
/// 3-D expert stack (`[experts, rows, cols]`) and 1 for an ordinary matrix; in
/// both cases the payload is `slabs * rows` contiguous rows of width `cols`.
#[derive(Clone, Copy, Debug)]
pub struct Rec {
    pub map: usize,
    pub off: usize,
    pub dt: Dt,
    pub slabs: usize,
    pub rows: usize,
    pub cols: usize,
}

impl Rec {
    /// The bytes of the payload.
    pub open spec fn size(self) -> int {
        self.slabs * self.rows * self.dt.row_size(self.cols as int)
    }
}

/// Whether `a` comes before `b`, comparing from character `i` on: by the first
/// character that differs, and a text before what it is the beginning of.
pub open spec fn before_from(a: Seq<char>, b: Seq<char>, i: nat) -> bool
    decreases b.len() - i,
{
    if i >= b.len() {
        false
    } else if i >= a.len() {
        true
    } else if a[i as int] != b[i as int] {
        a[i as int] < b[i as int]
    } else {
        before_from(a, b, i + 1)
    }
}

/// Whether `a` comes before `b`.
pub open spec fn before(a: Seq<char>, b: Seq<char>) -> bool {
    before_from(a, b, 0)
}

/// One of two different texts comes first.
pub proof fn lemma_total(a: Seq<char>, b: Seq<char>, i: nat)
    requires
        i <= a.len(),
        i <= b.len(),
        a.take(i as int) == b.take(i as int),
    ensures
        before_from(a, b, i) || before_from(b, a, i) || a == b,
    decreases a.len() - i,
{
    if i >= a.len() || i >= b.len() {
        if a.len() == b.len() {
            assert(a =~= a.take(i as int));
            assert(b =~= b.take(i as int));
        }
    } else if a[i as int] == b[i as int] {
        assert(a.take(i as int + 1) =~= a.take(i as int).push(a[i as int]));
        assert(b.take(i as int + 1) =~= b.take(i as int).push(b[i as int]));
        lemma_total(a, b, i + 1);
    }
}

/// No two texts come before each other, and none before itself.
pub proof fn lemma_one_way(a: Seq<char>, b: Seq<char>, i: nat)
    requires
        before_from(a, b, i),
    ensures
        !before_from(b, a, i),
        a != b,
    decreases b.len() - i,
{
    if i < a.len() && i < b.len() && a[i as int] == b[i as int] {
        lemma_one_way(a, b, i + 1);
    }
}

/// What comes before a text comes before what that comes before.
pub proof fn lemma_chain(a: Seq<char>, b: Seq<char>, c: Seq<char>, i: nat)
    requires
        before_from(a, b, i),
        before_from(b, c, i),
    ensures
        before_from(a, c, i),
    decreases c.len() - i,
{
    if i < a.len() && i < b.len() && i < c.len() && a[i as int] == b[i as int] && b[i as int] == c[i as int] {
        lemma_chain(a, b, c, i + 1);
    }
}

/// Whether `a` comes before `b`.
pub fn precedes(a: &str, b: &str) -> (r: bool)
    ensures
        r == before(a@, b@),
{
    let x = chars_of(a);
    let y = chars_of(b);
    let mut i: usize = 0;
    while i < x.len() && i < y.len() && x[i] == y[i]
        invariant
            i <= x@.len(),
            i <= y@.len(),
            x@ == a@,
            y@ == b@,
            before(a@, b@) == before_from(a@, b@, i as nat),
        decreases x@.len() - i,
    {
        i += 1;
    }
    if i >= y.len() {
        false
    } else if i >= x.len() {
        true
    } else {
        x[i] < y[i]
    }
}

/// Tensors by name.
pub struct Index {
    entries: Vec<(String, Rec)>,
}

impl View for Index {
    type V = Seq<(Seq<char>, Rec)>;

    closed spec fn view(&self) -> Seq<(Seq<char>, Rec)> {
        Seq::new(self.entries@.len(), |i: int| (self.entries@[i].0@, self.entries@[i].1))
    }
}

/// Entries stand in the order of their names, and no name comes twice.
pub open spec fn ascending(v: Seq<(Seq<char>, Rec)>) -> bool {
    forall|i: int, j: int| 0 <= i < j < v.len() ==> before(#[trigger] v[i].0, #[trigger] v[j].0)
}

/// The tensors of a list of entries: the last one counts where a name comes twice.
pub open spec fn tabled(v: Seq<(Seq<char>, Rec)>) -> Map<Seq<char>, Rec>
    decreases v.len(),
{
    if v.len() == 0 {
        Map::empty()
    } else {
        tabled(v.drop_last()).insert(v.last().0, v.last().1)
    }
}

/// A name in the table stands somewhere in the list, and what it stands with last
/// is what the table holds.
pub proof fn lemma_tabled(v: Seq<(Seq<char>, Rec)>, name: Seq<char>)
    ensures
        tabled(v).dom().contains(name) <==> exists|i: int| 0 <= i < v.len() && (#[trigger] v[i]).0 == name,
        tabled(v).dom().contains(name) ==> exists|i: int|
            0 <= i < v.len() && (#[trigger] v[i]) == (name, tabled(v)[name]),
    decreases v.len(),
{
    if v.len() > 0 {
        let w = v.drop_last();
        lemma_tabled(w, name);
        assert(v.last() == v[v.len() - 1]);
        if v.last().0 == name {
            assert(v[v.len() - 1] == (name, tabled(v)[name]));
        } else if tabled(w).dom().contains(name) {
            let i = choose|i: int| 0 <= i < w.len() && (#[trigger] w[i]) == (name, tabled(w)[name]);
            assert(v[i] == (name, tabled(v)[name]));
        } else if exists|i: int| 0 <= i < v.len() && (#[trigger] v[i]).0 == name {
            let i = choose|i: int| 0 <= i < v.len() && (#[trigger] v[i]).0 == name;
            assert(w[i].0 == name);
        }
    }
}

/// In an ordered list every entry is in the table as it stands.
pub proof fn lemma_entry(v: Seq<(Seq<char>, Rec)>, i: int)
    requires
        ascending(v),
        0 <= i < v.len(),
    ensures
        tabled(v).dom().contains(v[i].0),
        tabled(v)[v[i].0] == v[i].1,
{
    let name = v[i].0;
    lemma_tabled(v, name);
    let k = choose|k: int| 0 <= k < v.len() && (#[trigger] v[k]) == (name, tabled(v)[name]);
    if k < i {
        lemma_one_way(v[k].0, v[i].0, 0);
    } else if i < k {
        lemma_one_way(v[i].0, v[k].0, 0);
    }
}

impl Index {
    /// The entries stand in order.
    pub open spec fn valid(self) -> bool {
        ascending(self@)
    }

    /// The tensors by name.
    pub open spec fn table(self) -> Map<Seq<char>, Rec> {
        tabled(self@)
    }

    pub fn new() -> (r: Index)
        ensures
            r.valid(),
            r@.len() == 0,
            r.table() == Map::<Seq<char>, Rec>::empty(),
    {
        Index { entries: Vec::new() }
    }

    pub fn len(&self) -> (r: usize)
        ensures
            r == self@.len(),
    {
        self.entries.len()
    }

    /// The name of entry `i`.
    pub fn name(&self, i: usize) -> (r: &str)
        requires
            i < self@.len(),
        ensures
            r@ == self@[i as int].0,
    {
        self.entries[i].0.as_str()
    }

    /// The tensor of entry `i`.
    pub fn rec(&self, i: usize) -> (r: Rec)
        requires
            i < self@.len(),
        ensures
            r == self@[i as int].1,
    {
        self.entries[i].1
    }

    /// How many entries come before a name.
    fn rank(&self, name: &str) -> (r: usize)
        requires
            self.valid(),
        ensures
            r <= self@.len(),
            forall|k: int| 0 <= k < r ==> before((#[trigger] self@[k]).0, name@),
            forall|k: int| r <= k < self@.len() ==> !before((#[trigger] self@[k]).0, name@),
    {
        let mut lo: usize = 0;
        let mut hi: usize = self.entries.len();
        while lo < hi
            invariant
                lo <= hi <= self@.len(),
                self.valid(),
                forall|k: int| 0 <= k < lo ==> before((#[trigger] self@[k]).0, name@),
                forall|k: int| hi <= k < self@.len() ==> !before((#[trigger] self@[k]).0, name@),
            decreases hi - lo,
        {
            let mid: usize = lo + (hi - lo) / 2;
            assert(self@[mid as int].0 == self.entries@[mid as int].0@);
            if precedes(self.entries[mid].0.as_str(), name) {
                proof {
                    assert forall|k: int| 0 <= k < mid + 1 implies before((#[trigger] self@[k]).0, name@) by {
                        if k < mid {
                            lemma_chain(self@[k].0, self@[mid as int].0, name@, 0);
                        }
                    }
                }
                lo = mid + 1;
            } else {
                proof {
                    assert forall|k: int| mid <= k < self@.len() implies !before((#[trigger] self@[k]).0, name@) by {
                        if mid < k && before(self@[k].0, name@) {
                            lemma_chain(self@[mid as int].0, self@[k].0, name@, 0);
                        }
                    }
                }
                hi = mid;
            }
        }
        lo
    }

    /// The tensor of a name.
    pub fn get(&self, name: &str) -> (r: Option<Rec>)
        requires
            self.valid(),
        ensures
            match r {
                Some(x) => self.table().dom().contains(name@) && self.table()[name@] == x,
                None => !self.table().dom().contains(name@),
            },
    {
        let i: usize = self.rank(name);
        if i < self.entries.len() {
            assert(self@[i as int].0 == self.entries@[i as int].0@);
            if same(self.entries[i].0.as_str(), name) {
                proof {
                    lemma_entry(self@, i as int);
                }
                return Some(self.entries[i].1);
            }
        }
        proof {
            lemma_tabled(self@, name@);
            if self.table().dom().contains(name@) {
                let k = choose|k: int| 0 <= k < self@.len() && (#[trigger] self@[k]).0 == name@;
                if k < i {
                    lemma_one_way(self@[k].0, name@, 0);
                } else {
                    if i < k {
                        assert(before(self@[i as int].0, self@[k].0));
                    }
                }
            }
        }
        None
    }

    /// Add a tensor, or replace the one of that name.
    pub fn insert(&mut self, name: String, rec: Rec)
        requires
            old(self).valid(),
        ensures
            final(self).valid(),
            final(self).table() == old(self).table().insert(name@, rec),
    {
        let i: usize = self.rank(name.as_str());
        let ghost before_all = self@;
        if i < self.entries.len() {
            assert(self@[i as int].0 == self.entries@[i as int].0@);
            if same(self.entries[i].0.as_str(), name.as_str()) {
                self.entries.set(i, (name, rec));
                proof {
                    assert(self@ =~= before_all.update(i as int, (name@, rec)));
                    lemma_replaced(before_all, i as int, rec);
                }
                return ;
            }
        }
        self.entries.insert(i, (name, rec));
        proof {
            assert(self@ =~= before_all.insert(i as int, (name@, rec)));
            lemma_inserted(before_all, i as int, name@, rec);
        }
    }
}

proof fn lemma_replaced(v: Seq<(Seq<char>, Rec)>, i: int, rec: Rec)
    requires
        ascending(v),
        0 <= i < v.len(),
    ensures
        ascending(v.update(i, (v[i].0, rec))),
        tabled(v.update(i, (v[i].0, rec))) == tabled(v).insert(v[i].0, rec),
{
    let w = v.update(i, (v[i].0, rec));
    assert forall|a: int, b: int| 0 <= a < b < w.len() implies before(#[trigger] w[a].0, #[trigger] w[b].0) by {
        assert(before(v[a].0, v[b].0));
    }
    assert forall|n: Seq<char>| #[trigger] tabled(v).insert(v[i].0, rec).dom().contains(n) implies exists|k: int|
        0 <= k < w.len() && (#[trigger] w[k]) == (n, tabled(v).insert(v[i].0, rec)[n]) by {
        if n == v[i].0 {
            assert(w[i] == (n, rec));
        } else {
            lemma_tabled(v, n);
            let k = choose|k: int| 0 <= k < v.len() && (#[trigger] v[k]) == (n, tabled(v)[n]);
            assert(w[k] == v[k]);
        }
    }
    assert forall|k: int| 0 <= k < w.len() implies tabled(v).insert(v[i].0, rec).dom().contains((#[trigger] w[k]).0) by {
        lemma_entry(v, k);
    }
    lemma_table_is(w, tabled(v).insert(v[i].0, rec));
}

/// A table that holds each entry of an ordered list, and nothing else, is its
/// table.
proof fn lemma_table_is(w: Seq<(Seq<char>, Rec)>, m: Map<Seq<char>, Rec>)
    requires
        ascending(w),
        forall|n: Seq<char>| #[trigger]
            m.dom().contains(n) ==> exists|k: int| 0 <= k < w.len() && (#[trigger] w[k]) == (n, m[n]),
        forall|k: int| 0 <= k < w.len() ==> m.dom().contains((#[trigger] w[k]).0),
    ensures
        tabled(w) == m,
{
    assert forall|n: Seq<char>| #[trigger] tabled(w).dom().contains(n) <==> m.dom().contains(n) by {
        lemma_tabled(w, n);
        if tabled(w).dom().contains(n) {
            let k = choose|k: int| 0 <= k < w.len() && (#[trigger] w[k]).0 == n;
            assert(m.dom().contains(w[k].0));
        }
        if m.dom().contains(n) {
            let k = choose|k: int| 0 <= k < w.len() && (#[trigger] w[k]) == (n, m[n]);
            assert(w[k].0 == n);
        }
    }
    assert forall|n: Seq<char>| #[trigger] m.dom().contains(n) implies tabled(w)[n] == m[n] by {
        let k = choose|k: int| 0 <= k < w.len() && (#[trigger] w[k]) == (n, m[n]);
        lemma_entry(w, k);
    }
    assert(tabled(w) =~= m);
}

proof fn lemma_inserted(v: Seq<(Seq<char>, Rec)>, i: int, name: Seq<char>, rec: Rec)
    requires
        ascending(v),
        0 <= i <= v.len(),
        forall|k: int| 0 <= k < i ==> before((#[trigger] v[k]).0, name),
        forall|k: int| i <= k < v.len() ==> !before((#[trigger] v[k]).0, name),
        i < v.len() ==> v[i].0 != name,
    ensures
        ascending(v.insert(i, (name, rec))),
        tabled(v.insert(i, (name, rec))) == tabled(v).insert(name, rec),
{
    let w = v.insert(i, (name, rec));
    let m = tabled(v).insert(name, rec);
    assert forall|k: int| i <= k < v.len() implies before(name, (#[trigger] v[k]).0) by {
        assert(name.take(0) =~= v[i].0.take(0));
        lemma_total(name, v[i].0, 0);
        if i < k {
            lemma_chain(name, v[i].0, v[k].0, 0);
        }
    }
    assert forall|a: int, b: int| 0 <= a < b < w.len() implies before(#[trigger] w[a].0, #[trigger] w[b].0) by {
        if a < i && b == i {
            assert(w[a] == v[a]);
        } else if a == i {
            assert(w[b] == v[b - 1]);
        } else if a < i && b < i {
            assert(before(v[a].0, v[b].0));
        } else if a < i {
            assert(w[b] == v[b - 1]);
            assert(before(v[a].0, v[b - 1].0));
        } else {
            assert(w[a] == v[a - 1] && w[b] == v[b - 1]);
            assert(before(v[a - 1].0, v[b - 1].0));
        }
    }
    assert forall|n: Seq<char>| #[trigger] m.dom().contains(n) implies exists|k: int|
        0 <= k < w.len() && (#[trigger] w[k]) == (n, m[n]) by {
        if n == name {
            assert(w[i] == (n, rec));
        } else {
            lemma_tabled(v, n);
            let k = choose|k: int| 0 <= k < v.len() && (#[trigger] v[k]) == (n, tabled(v)[n]);
            if k < i {
                assert(w[k] == v[k]);
            } else {
                assert(w[k + 1] == v[k]);
            }
        }
    }
    assert forall|k: int| 0 <= k < w.len() implies m.dom().contains((#[trigger] w[k]).0) by {
        if k < i {
            assert(w[k] == v[k]);
            lemma_entry(v, k);
        } else if k > i {
            assert(w[k] == v[k - 1]);
            lemma_entry(v, k - 1);
        }
    }
    lemma_table_is(w, m);
}

} // verus!
