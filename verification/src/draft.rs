//! Guessing what comes next without running the model.
//!
//! Decoding one token at a time on a CPU is bandwidth-bound, so if something can
//! guess the next few tokens cheaply, the model can check all of them in a single
//! step and keep whichever prefix it agrees with.
//!
//! The guesser here needs no second model. It looks for the last few tokens
//! occurring earlier in the same sequence and proposes whatever followed them.
//! Nothing is ever wrong, only wasted, because every guess is checked against the
//! true distribution before it is emitted.

use vstd::prelude::*;

verus! {

/// Propose continuations by finding where the tail of a sequence occurred before.
#[derive(Clone, Copy)]
pub struct Lookup {
    /// Longest suffix to try matching. Longer matches are more reliable, so the
    /// search starts here and works down.
    pub max_ngram: usize,
    /// Shortest suffix worth trusting. Below about 2 the matches are noise.
    pub min_ngram: usize,
}

impl Default for Lookup {
    fn default() -> (r: Lookup)
        ensures
            r == (Lookup { max_ngram: 8, min_ngram: 2 }),
    {
        Lookup { max_ngram: 8, min_ngram: 2 }
    }
}

/// Whether the last `n` tokens also stand at `start`.
pub open spec fn recurs(h: Seq<u32>, n: nat, start: int) -> bool {
    0 <= start && start + n <= h.len() && h.subrange(start, start + n) == h.subrange(h.len() - n, h.len() as int)
}

/// The most recent place at or before `s` where the last `n` tokens stand.
pub open spec fn latest(h: Seq<u32>, n: nat, s: int) -> Option<int>
    decreases s + 1,
{
    if s < 0 {
        None
    } else if recurs(h, n, s) {
        Some(s)
    } else {
        latest(h, n, s - 1)
    }
}

/// Up to `want` tokens of the history from `from` on.
pub open spec fn replay(h: Seq<u32>, from: int, want: nat) -> Seq<u32> {
    h.subrange(
        from,
        if from + want <= h.len() {
            from + want
        } else {
            h.len() as int
        },
    )
}

/// What followed the most recent earlier occurrence of the longest suffix of at
/// most `n` and at least `least` tokens that has one. The occurrence leaves at
/// least one token after it.
pub open spec fn proposal(h: Seq<u32>, least: nat, n: nat, want: nat) -> Seq<u32>
    decreases n,
{
    if n < least || n == 0 {
        Seq::empty()
    } else {
        match latest(h, n, h.len() - n - 1) {
            Some(s) => replay(h, s + n, want),
            None => proposal(h, least, (n - 1) as nat, want),
        }
    }
}

impl Lookup {
    /// What is proposed after a history.
    pub open spec fn proposed(self, h: Seq<u32>, want: nat) -> Seq<u32> {
        if want == 0 || h.len() < 2 {
            Seq::empty()
        } else {
            proposal(
                h,
                if self.min_ngram > 1 {
                    self.min_ngram as nat
                } else {
                    1
                },
                if self.max_ngram < h.len() {
                    self.max_ngram as nat
                } else {
                    (h.len() - 1) as nat
                },
                want,
            )
        }
    }

    /// Up to `want` tokens that plausibly follow `history`.
    ///
    /// Tries the longest suffix first and takes the *most recent* earlier
    /// occurrence, on the reasoning that a repeat is usually continuing the
    /// nearest precedent rather than the oldest one.
    pub fn propose(&self, history: &[u32], want: usize) -> (r: Vec<u32>)
        ensures
            r@ == self.proposed(history@, want as nat),
            r@.len() <= want,
    {
        let len: usize = history.len();
        if want == 0 || len < 2 {
            return Vec::new();
        }
        let least: usize = if self.min_ngram > 1 {
            self.min_ngram
        } else {
            1
        };
        let mut n: usize = if self.max_ngram < len {
            self.max_ngram
        } else {
            len - 1
        };
        while n >= least
            invariant
                1 <= least,
                n < len == history@.len(),
                len >= 2,
                want > 0,
                self.proposed(history@, want as nat) == proposal(history@, least as nat, n as nat, want as nat),
            decreases n,
        {
            // Candidate starts must leave at least one token after the match,
            // and must not be the tail itself.
            let mut s: usize = len - n;
            while s > 0
                invariant
                    1 <= n < len == history@.len(),
                    1 <= least <= n,
                    s <= len - n,
                    want > 0,
                    self.proposed(history@, want as nat) == proposal(history@, least as nat, n as nat, want as nat),
                    latest(history@, n as nat, len - n - 1) == latest(history@, n as nat, s - 1),
                decreases s,
            {
                s -= 1;
                if same_run(history, s, len - n, n) {
                    assert(recurs(history@, n as nat, s as int));
                    let from: usize = s + n;
                    let end: usize = if want <= len - from {
                        from + want
                    } else {
                        len
                    };
                    return copy_range(history, from, end);
                }
                assert(!recurs(history@, n as nat, s as int));
            }
            n -= 1;
        }
        Vec::new()
    }
}

/// Whether `h[a..a + n]` and `h[b..b + n]` are the same.
fn same_run(h: &[u32], a: usize, b: usize, n: usize) -> (r: bool)
    requires
        a + n <= h@.len(),
        b + n <= h@.len(),
    ensures
        r == (h@.subrange(a as int, a + n) == h@.subrange(b as int, b + n)),
{
    let mut k: usize = 0;
    assert(h.len() == h@.len());
    while k < n
        invariant
            k <= n,
            h.len() == h@.len(),
            a + n <= h@.len(),
            b + n <= h@.len(),
            h@.subrange(a as int, a + k) == h@.subrange(b as int, b + k),
        decreases n - k,
    {
        if h[a + k] != h[b + k] {
            assert(h@.subrange(a as int, a + n)[k as int] != h@.subrange(b as int, b + n)[k as int]);
            return false;
        }
        assert(h@.subrange(a as int, a + k + 1) =~= h@.subrange(a as int, a + k).push(h@[a + k]));
        assert(h@.subrange(b as int, b + k + 1) =~= h@.subrange(b as int, b + k).push(h@[b + k]));
        k += 1;
    }
    true
}

fn copy_range(h: &[u32], from: usize, end: usize) -> (r: Vec<u32>)
    requires
        from <= end <= h@.len(),
    ensures
        r@ == h@.subrange(from as int, end as int),
{
    let mut out: Vec<u32> = Vec::new();
    let mut i: usize = from;
    while i < end
        invariant
            from <= i <= end <= h@.len(),
            out@ == h@.subrange(from as int, i as int),
        decreases end - i,
    {
        out.push(h[i]);
        i += 1;
        assert(out@ =~= h@.subrange(from as int, i as int));
    }
    out
}

proof fn lemma_latest(h: Seq<u32>, n: nat, s: int)
    ensures
        latest(h, n, s) matches Some(k) ==> 0 <= k <= s && recurs(h, n, k),
    decreases s + 1,
{
    if s >= 0 && !recurs(h, n, s) {
        lemma_latest(h, n, s - 1);
    }
}

proof fn lemma_proposal(h: Seq<u32>, least: nat, n: nat, want: nat)
    requires
        n < h.len(),
    ensures
        forall|i: int| 0 <= i < proposal(h, least, n, want).len() ==> h.contains(#[trigger] proposal(h, least, n, want)[i]),
        proposal(h, least, n, want).len() <= want,
    decreases n,
{
    if n >= least && n > 0 {
        lemma_latest(h, n, h.len() - n - 1);
        match latest(h, n, h.len() - n - 1) {
            Some(s) => {
                let r = replay(h, s + n, want);
                assert forall|i: int| 0 <= i < r.len() implies h.contains(#[trigger] r[i]) by {
                    assert(h[s + n + i] == r[i]);
                }
            },
            None => {
                lemma_proposal(h, least, (n - 1) as nat, want);
            },
        }
    }
}

/// A draft only ever replays seen tokens: whatever is proposed stands in the
/// history, so a draft can never introduce a token that was not there already.
pub proof fn law_drafts_replay(l: Lookup, h: Seq<u32>, want: nat)
    ensures
        forall|i: int| 0 <= i < l.proposed(h, want).len() ==> h.contains(#[trigger] l.proposed(h, want)[i]),
        l.proposed(h, want).len() <= want,
{
    if want > 0 && h.len() >= 2 {
        lemma_proposal(
            h,
            if l.min_ngram > 1 {
                l.min_ngram as nat
            } else {
                1
            },
            if l.max_ngram < h.len() {
                l.max_ngram as nat
            } else {
                (h.len() - 1) as nat
            },
            want,
        );
    }
}

} // verus!
