//! The pool of prefix caches behind a server.
//!
//! Each slot remembers the token ids that produced its cache. A request takes the slot
//! that shares the longest prefix with it, and prefills only the rest; one that matches
//! nothing takes the coldest rather than evicting a conversation that may come back. A
//! wrong cache hit would produce silently wrong output rather than an error, so the
//! comparison is on exact token ids.

use vstd::prelude::*;

verus! {

/// One cache: the token ids that produced it, and when it was last used.
#[derive(Debug)]
pub struct Slot {
    pub history: Vec<u32>,
    pub stamp: u64,
}

/// What a [`Slot`] holds.
#[verifier::ext_equal]
pub struct SlotV {
    pub history: Seq<u32>,
    pub stamp: u64,
}

impl View for Slot {
    type V = SlotV;

    open spec fn view(&self) -> SlotV {
        SlotV { history: self.history@, stamp: self.stamp }
    }
}

/// What some slots hold.
pub open spec fn slot_views(v: Seq<Slot>) -> Seq<SlotV> {
    Seq::new(v.len(), |i: int| v[i]@)
}

/// How far two sequences agree, from `i` on.
pub open spec fn agree_from(a: Seq<u32>, b: Seq<u32>, i: nat) -> nat
    decreases a.len() - i,
{
    if i < a.len() && i < b.len() && a[i as int] == b[i as int] {
        agree_from(a, b, i + 1)
    } else {
        i
    }
}

/// How many tokens two sequences have in common at their start.
pub open spec fn common(a: Seq<u32>, b: Seq<u32>) -> nat {
    agree_from(a, b, 0)
}

/// How much of a cache is reused. At least one token is always left to forward: logits
/// come from running a position, not from having run it earlier.
pub open spec fn reused(want: Seq<u32>, history: Seq<u32>, cache: bool) -> nat {
    if !cache || want.len() == 0 {
        0
    } else if common(want, history) < want.len() {
        common(want, history)
    } else {
        (want.len() - 1) as nat
    }
}

/// Which of the first `n` slots has most in common with a request.
pub open spec fn nearest(v: Seq<SlotV>, want: Seq<u32>, n: nat) -> int
    decreases n,
{
    if n <= 1 || n > v.len() {
        0
    } else {
        let best = nearest(v, want, (n - 1) as nat);
        if common(want, v[n - 1].history) > common(want, v[best].history) {
            n - 1
        } else {
            best
        }
    }
}

/// Which of the first `n` slots was used longest ago.
pub open spec fn coldest(v: Seq<SlotV>, n: nat) -> int
    decreases n,
{
    if n <= 1 || n > v.len() {
        0
    } else {
        let best = coldest(v, (n - 1) as nat);
        if v[n - 1].stamp < v[best].stamp {
            n - 1
        } else {
            best
        }
    }
}

/// The slot that a request takes.
pub open spec fn slot_for(v: Seq<SlotV>, want: Seq<u32>, cache: bool) -> int {
    let best = nearest(v, want, v.len());
    if cache && common(want, v[best].history) > 0 {
        best
    } else {
        coldest(v, v.len())
    }
}

proof fn lemma_agree(a: Seq<u32>, b: Seq<u32>, i: nat)
    requires
        i <= a.len(),
        i <= b.len(),
        a.take(i as int) == b.take(i as int),
    ensures
        i <= agree_from(a, b, i) <= a.len(),
        agree_from(a, b, i) <= b.len(),
        a.take(agree_from(a, b, i) as int) == b.take(agree_from(a, b, i) as int),
    decreases a.len() - i,
{
    if i < a.len() && i < b.len() && a[i as int] == b[i as int] {
        assert(a.take(i as int + 1) =~= a.take(i as int).push(a[i as int]));
        assert(b.take(i as int + 1) =~= b.take(i as int).push(b[i as int]));
        lemma_agree(a, b, i + 1);
    }
}

/// What is reused is the request's own prefix, token for token, and never all of it.
pub proof fn law_reuse_is_a_prefix(want: Seq<u32>, history: Seq<u32>, cache: bool)
    ensures
        ({
            let n = reused(want, history, cache);
            &&& n <= history.len()
            &&& want.len() > 0 ==> n < want.len()
            &&& history.take(n as int) == want.take(n as int)
        }),
{
    assert(want.take(0) =~= history.take(0));
    lemma_agree(want, history, 0);
    let c = common(want, history);
    let n = reused(want, history, cache);
    assert forall|i: int| 0 <= i < n implies history[i] == want[i] by {
        assert(want.take(c as int)[i] == history.take(c as int)[i]);
    }
    assert(history.take(n as int) =~= want.take(n as int));
}

proof fn lemma_nearest(v: Seq<SlotV>, want: Seq<u32>, n: nat)
    requires
        0 < n <= v.len(),
    ensures
        0 <= nearest(v, want, n) < n,
        forall|j: int|
            0 <= j < n ==> common(want, (#[trigger] v[j]).history) <= common(want, v[nearest(v, want, n)].history),
    decreases n,
{
    if n > 1 {
        lemma_nearest(v, want, (n - 1) as nat);
    }
}

proof fn lemma_coldest(v: Seq<SlotV>, n: nat)
    requires
        0 < n <= v.len(),
    ensures
        0 <= coldest(v, n) < n,
        forall|j: int| 0 <= j < n ==> v[coldest(v, n)].stamp <= (#[trigger] v[j]).stamp,
    decreases n,
{
    if n > 1 {
        lemma_coldest(v, (n - 1) as nat);
    }
}

/// The slot that shares the longest prefix wins; where none shares any, the coldest does.
pub proof fn law_longest_prefix_wins(v: Seq<SlotV>, want: Seq<u32>, cache: bool, j: int)
    requires
        0 <= j < v.len(),
    ensures
        ({
            let k = slot_for(v, want, cache);
            &&& 0 <= k < v.len()
            &&& cache ==> common(want, v[j].history) <= common(want, v[k].history)
            &&& !cache || common(want, v[k].history) == 0 ==> v[k].stamp <= v[j].stamp
        }),
{
    lemma_nearest(v, want, v.len());
    lemma_coldest(v, v.len());
    let best = nearest(v, want, v.len());
    assert(common(want, v[j].history) <= common(want, v[best].history));
    let c = coldest(v, v.len());
    assert(common(want, v[c].history) <= common(want, v[best].history));
}

/// The pool.
#[derive(Debug)]
pub struct Slots {
    pub slots: Vec<Slot>,
    pub clock: u64,
    /// Whether caches are reused at all.
    pub cache: bool,
}

fn agreement(a: &Vec<u32>, b: &Vec<u32>) -> (r: usize)
    ensures
        r == common(a@, b@),
        r <= a@.len(),
        r <= b@.len(),
{
    let mut i: usize = 0;
    while i < a.len() && i < b.len() && a[i] == b[i]
        invariant
            i <= a@.len(),
            i <= b@.len(),
            common(a@, b@) == agree_from(a@, b@, i as nat),
        decreases a.len() - i,
    {
        i += 1;
    }
    i
}

impl Slots {
    /// What the slots hold.
    pub open spec fn views(self) -> Seq<SlotV> {
        slot_views(self.slots@)
    }

    /// A pool of empty caches, at least one.
    pub fn new(n: usize, cache: bool) -> (r: Slots)
        ensures
            r.views().len() == (if n > 0 {
                n
            } else {
                1
            }),
            forall|i: int|
                0 <= i < r.views().len() ==> (#[trigger] r.views()[i]) == (SlotV { history: Seq::empty(), stamp: 0 }),
            r.clock == 0,
            r.cache == cache,
    {
        let want: usize = if n > 0 {
            n
        } else {
            1
        };
        let mut slots: Vec<Slot> = Vec::new();
        let mut i: usize = 0;
        while i < want
            invariant
                i <= want,
                slots@.len() == i,
                forall|k: int| 0 <= k < i ==> (#[trigger] slots@[k])@ == (SlotV { history: Seq::empty(), stamp: 0 }),
            decreases want - i,
        {
            let s = Slot { history: Vec::new(), stamp: 0 };
            assert(s@ =~= SlotV { history: Seq::empty(), stamp: 0 });
            slots.push(s);
            i += 1;
        }
        Slots { slots, clock: 0, cache }
    }

    /// Take a slot for a request: reuse whatever of it a cache already holds, and drop the
    /// rest of that cache. Gives the slot, and how much of it is kept.
    pub fn take(&mut self, want: &Vec<u32>) -> (r: (usize, usize))
        requires
            old(self).views().len() > 0,
        ensures
            r.0 == slot_for(old(self).views(), want@, old(self).cache),
            r.0 < old(self).views().len(),
            r.1 == reused(want@, old(self).views()[r.0 as int].history, old(self).cache),
            final(self).cache == old(self).cache,
            final(self).clock == (if old(self).clock < u64::MAX {
                (old(self).clock + 1) as u64
            } else {
                u64::MAX
            }),
            final(self).views() == old(self).views().update(
                r.0 as int,
                SlotV {
                    history: old(self).views()[r.0 as int].history.take(r.1 as int),
                    stamp: final(self).clock,
                },
            ),
    {
        let ghost v = self.views();
        proof {
            lemma_nearest(v, want@, v.len());
            lemma_coldest(v, v.len());
        }
        let mut best: usize = 0;
        let mut most: usize = agreement(want, &self.slots[0].history);
        let mut cold: usize = 0;
        let mut i: usize = 1;
        assert(v[0] == self.slots@[0]@);
        while i < self.slots.len()
            invariant
                1 <= i <= self.slots@.len(),
                self.views() == v,
                v.len() == self.slots@.len(),
                best < i,
                cold < i,
                best == nearest(v, want@, i as nat),
                most == common(want@, v[best as int].history),
                cold == coldest(v, i as nat),
                self.clock == old(self).clock,
                self.cache == old(self).cache,
            decreases self.slots.len() - i,
        {
            assert(v[i as int] == self.slots@[i as int]@);
            assert(v[cold as int] == self.slots@[cold as int]@);
            let n: usize = agreement(want, &self.slots[i].history);
            if n > most {
                best = i;
                most = n;
            }
            if self.slots[i].stamp < self.slots[cold].stamp {
                cold = i;
            }
            i += 1;
        }
        let k: usize = if self.cache && most > 0 {
            best
        } else {
            cold
        };
        assert(v[k as int] == self.slots@[k as int]@);
        let n: usize = if !self.cache || want.len() == 0 {
            0
        } else {
            let c: usize = agreement(want, &self.slots[k].history);
            if c < want.len() {
                c
            } else {
                want.len() - 1
            }
        };
        proof {
            law_reuse_is_a_prefix(want@, v[k as int].history, self.cache);
        }
        self.clock = self.clock.saturating_add(1);
        let mut h: Vec<u32> = Vec::new();
        std::mem::swap(&mut h, &mut self.slots[k].history);
        h.truncate(n);
        let s = Slot { history: h, stamp: self.clock };
        assert(s@.history =~= v[k as int].history.take(n as int));
        self.slots.set(k, s);
        assert(self.views() =~= v.update(
            k as int,
            SlotV { history: v[k as int].history.take(n as int), stamp: self.clock },
        ));
        (k, n)
    }

    /// Record what a slot's cache was produced by.
    pub fn put(&mut self, k: usize, history: Vec<u32>)
        requires
            k < old(self).views().len(),
        ensures
            final(self).views() == old(self).views().update(
                k as int,
                SlotV { history: history@, stamp: old(self).views()[k as int].stamp },
            ),
            final(self).clock == old(self).clock,
            final(self).cache == old(self).cache,
    {
        let ghost v = self.views();
        let stamp: u64 = self.slots[k].stamp;
        assert(v[k as int] == self.slots@[k as int]@);
        let s = Slot { history, stamp };
        self.slots.set(k, s);
        assert(self.views() =~= v.update(k as int, SlotV { history: history@, stamp }));
    }
}

} // verus!
