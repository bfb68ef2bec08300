//! Sampling: which token comes next.
//!
//! Logits and probabilities are single-precision numbers, given by their bits. They are
//! compared here; the arithmetic on them is done in floating point elsewhere.

use vstd::prelude::*;
use crate::float::{greater, is_greater, is_nan, law_order_is_faithful, order_key, order_of, top_bit};
use crate::gate::{chosen, ranking};
use crate::rank::Ranking;

verus! {

/// xorshift64*, so runs are reproducible from a seed without a dependency.
#[derive(Clone, Copy, PartialEq, Eq, Debug, Structural)]
pub struct Rng {
    pub state: u64,
}

/// The state that a seed gives.
pub open spec fn seeded(seed: u64) -> u64 {
    seed.wrapping_mul(0x9e37_79b9_7f4a_7c15) | 1
}

/// The state after a step.
pub open spec fn stirred(x: u64) -> u64 {
    let a = x ^ (x >> 12);
    let b = a ^ (a << 25);
    b ^ (b >> 27)
}

/// The number that a state gives, of 24 bits.
pub open spec fn drawn_from(x: u64) -> u64 {
    x.wrapping_mul(0x2545_f491_4f6c_dd1d) >> 40
}

/// The bits of the single-precision number that stands for `n` parts of 2^24.
pub open spec fn fraction(n: u64) -> u32 {
    if n == 0 {
        0
    } else if n >= 0x80_0000 {
        (0x3f00_0000 | (n & 0x7f_ffff)) as u32
    } else {
        let h = top_bit(n);
        (((h + 103) as u64) << 23 | ((n << (23 - h) as u64) & 0x7f_ffff)) as u32
    }
}

fn leading(n: u64) -> (h: u64)
    ensures
        h == top_bit(n),
        h <= 22,
{
    if n >= 0x40_0000 {
        22
    } else if n >= 0x20_0000 {
        21
    } else if n >= 0x10_0000 {
        20
    } else if n >= 0x8_0000 {
        19
    } else if n >= 0x4_0000 {
        18
    } else if n >= 0x2_0000 {
        17
    } else if n >= 0x1_0000 {
        16
    } else if n >= 0x8000 {
        15
    } else if n >= 0x4000 {
        14
    } else if n >= 0x2000 {
        13
    } else if n >= 0x1000 {
        12
    } else if n >= 0x800 {
        11
    } else if n >= 0x400 {
        10
    } else if n >= 0x200 {
        9
    } else if n >= 0x100 {
        8
    } else if n >= 0x80 {
        7
    } else if n >= 0x40 {
        6
    } else if n >= 0x20 {
        5
    } else if n >= 0x10 {
        4
    } else if n >= 8 {
        3
    } else if n >= 4 {
        2
    } else if n >= 2 {
        1
    } else {
        0
    }
}

impl Rng {
    pub fn new(seed: u64) -> (r: Rng)
        ensures
            r.state == seeded(seed),
    {
        Rng { state: seed.wrapping_mul(0x9e37_79b9_7f4a_7c15) | 1 }
    }

    /// The next number, at least zero and less than one, as its bits.
    pub fn next_f32(&mut self) -> (r: u32)
        ensures
            final(self).state == stirred(old(self).state),
            r == fraction(drawn_from(stirred(old(self).state))),
    {
        let x: u64 = self.state;
        let a: u64 = x ^ (x >> 12);
        let b: u64 = a ^ (a << 25);
        let c: u64 = b ^ (b >> 27);
        self.state = c;
        let n: u64 = c.wrapping_mul(0x2545_f491_4f6c_dd1d) >> 40;
        if n == 0 {
            0
        } else if n >= 0x80_0000 {
            #[verifier::truncate]
            ((0x3f00_0000 | (n & 0x7f_ffff)) as u32)
        } else {
            let h: u64 = leading(n);
            #[verifier::truncate]
            (((h + 103) << 23 | ((n << (23 - h)) & 0x7f_ffff)) as u32)
        }
    }
}

/// A generator never runs dry: no seed and no step gives the state that gives itself.
pub proof fn law_state_is_never_zero(seed: u64, x: u64)
    ensures
        seeded(seed) != 0,
        x != 0 ==> stirred(x) != 0,
{
    let m = seed.wrapping_mul(0x9e37_79b9_7f4a_7c15);
    assert(m | 1 != 0) by (bit_vector);
    assert(x != 0 ==> ((x ^ (x >> 12)) ^ ((x ^ (x >> 12)) << 25)) ^ (((x ^ (x >> 12)) ^ ((x ^ (x >> 12)) << 25)) >> 27)
        != 0) by (bit_vector);
}

/// Every number drawn is at least zero and less than one, and stands for its parts of
/// 2^24 exactly: with the exponent `e` of its bits, its mantissa has as many bits more.
pub proof fn law_draws_are_fractions(x: u64)
    ensures
        ({
            let n = drawn_from(x);
            let r = fraction(n);
            let e = (r >> 23) as u64;
            let man = (r & 0x7f_ffff) as u64 | 0x80_0000;
            &&& n < 0x100_0000
            &&& r < 0x3f80_0000
            &&& n > 0 ==> 103 <= e <= 126 && man == n << ((126 - e) as u64)
        }),
{
    let w = x.wrapping_mul(0x2545_f491_4f6c_dd1d);
    let n = drawn_from(x);
    assert(w >> 40 < 0x100_0000) by (bit_vector);
    let r = fraction(n);
    if n == 0 {
        assert(0u32 >> 23 == 0) by (bit_vector);
    } else if n >= 0x80_0000 {
        let y = n & 0x7f_ffff;
        assert(0x3f00_0000 | (n & 0x7f_ffff) < 0x3f80_0000) by (bit_vector);
        let q = (0x3f00_0000 | (n & 0x7f_ffff)) as u32;
        assert(q >> 23 == 126 && (q & 0x7f_ffff) as u64 | 0x80_0000 == n << 0 && q < 0x3f80_0000) by (bit_vector)
            requires
                q == (0x3f00_0000 | (n & 0x7f_ffff)) as u32,
                0x80_0000 <= n < 0x100_0000,
        ;
    } else {
        let h = top_bit(n);
        lemma_fraction(n, h);
    }
}

proof fn lemma_fraction(n: u64, h: u64)
    requires
        0 < n < 0x80_0000,
        h == top_bit(n),
    ensures
        h <= 22,
        ({
            let r = (((h + 103) as u64) << 23 | ((n << (23 - h) as u64) & 0x7f_ffff)) as u32;
            let e = (r >> 23) as u64;
            &&& r < 0x3f80_0000
            &&& e == h + 103
            &&& (r & 0x7f_ffff) as u64 | 0x80_0000 == n << ((126 - e) as u64)
        }),
{
    assert(n >> h == 1 && h <= 22) by (bit_vector)
        requires
            h == top_bit(n),
            0 < n < 0x80_0000,
    ;
    let k = (h + 103) as u64;
    let d = (23 - h) as u64;
    let r = (k << 23 | ((n << d) & 0x7f_ffff)) as u32;
    assert(r < 0x3f80_0000 && r >> 23 == k && (r & 0x7f_ffff) as u64 | 0x80_0000 == n << d) by (bit_vector)
        requires
            n >> h == 1,
            h <= 22,
            k == h + 103,
            d == 23 - h,
            r == (k << 23 | ((n << d) & 0x7f_ffff)) as u32,
    ;
}

/// How the next token is chosen. Numbers that are not whole are given by their bits.
#[derive(Clone, Copy, PartialEq, Eq, Debug, Structural)]
pub struct Sampler {
    pub temp: u32,
    pub top_p: u32,
    pub top_k: usize,
    pub repeat_penalty: u32,
    pub repeat_window: usize,
    pub rng: u64,
}

/// The bits of one.
pub const ONE: u32 = 0x3f80_0000;

impl Default for Sampler {
    /// Greedy: no temperature, the best 95 percent, no penalty.
    fn default() -> (r: Sampler)
        ensures
            r == (Sampler {
                temp: 0,
                top_p: 0x3f73_3333,
                top_k: 0,
                repeat_penalty: ONE,
                repeat_window: 64,
                rng: 0,
            }),
    {
        Sampler { temp: 0, top_p: 0x3f73_3333, top_k: 0, repeat_penalty: ONE, repeat_window: 64, rng: 0 }
    }
}

/// Some of the last tokens, the last first.
pub open spec fn recent(history: Seq<u32>, window: int) -> Seq<u32> {
    let n = if window < history.len() {
        window
    } else {
        history.len() as int
    };
    Seq::new(n as nat, |i: int| history[history.len() - 1 - i])
}

/// Which of the first `n` logits is highest, the first of those that are as high.
pub open spec fn argmax(v: Seq<u32>, n: nat) -> int
    decreases n,
{
    if n == 0 || n > v.len() {
        0
    } else {
        let best = argmax(v, (n - 1) as nat);
        if greater(v[n - 1], v[best]) {
            n - 1
        } else {
            best
        }
    }
}

/// The orders of some numbers.
pub open spec fn orders(v: Seq<u32>) -> Seq<u32> {
    Seq::new(v.len(), |i: int| order_of(v[i]))
}

/// The numbers of the candidates, the best first.
pub open spec fn ids_of(v: Seq<(u64, u64)>) -> Seq<u32> {
    Seq::new(v.len(), |i: int| v[i].1 as u32)
}

/// How many candidates a running sum of probabilities leaves: up to and including the
/// first at which it reaches a bound, from `i` on.
pub open spec fn reached(sums: Seq<u32>, bound: u32, i: int) -> int
    decreases sums.len() - i,
{
    if i < 0 || i >= sums.len() {
        sums.len() as int
    } else if !is_nan(sums[i]) && !is_nan(bound) && !greater(bound, sums[i]) {
        i + 1
    } else {
        reached(sums, bound, i + 1)
    }
}

/// Where a running sum of probabilities first passes a number, from `i` on.
pub open spec fn passed(sums: Seq<u32>, r: u32, i: int) -> int
    decreases sums.len() - i,
{
    if i < 0 || i >= sums.len() {
        sums.len() as int
    } else if greater(sums[i], r) {
        i
    } else {
        passed(sums, r, i + 1)
    }
}

/// The candidate that a number picks, by the running sums of the probabilities.
pub open spec fn picked(ids: Seq<u32>, sums: Seq<u32>, r: u32) -> u32 {
    let i = passed(sums, r, 0);
    if ids.len() == 0 {
        0
    } else if i < ids.len() && i < sums.len() {
        ids[i]
    } else {
        ids.last()
    }
}

/// Where a token stands among the candidates.
pub open spec fn place_of(ids: Seq<u32>, guess: u32, i: int) -> Option<int>
    decreases ids.len() - i,
{
    if i < 0 || i >= ids.len() {
        None
    } else if ids[i] == guess {
        Some(i)
    } else {
        place_of(ids, guess, i + 1)
    }
}

/// The places of the first `n` candidates that are not the guess.
pub open spec fn others(ids: Seq<u32>, guess: u32, n: nat) -> Seq<usize>
    decreases n,
{
    if n == 0 || n > ids.len() {
        Seq::empty()
    } else {
        let rest = others(ids, guess, (n - 1) as nat);
        if ids[n - 1] == guess {
            rest
        } else {
            rest.push((n - 1) as usize)
        }
    }
}

/// The probability of a token: that of its place among the candidates, or zero.
pub open spec fn chance(ids: Seq<u32>, probs: Seq<u32>, guess: u32) -> u32 {
    match place_of(ids, guess, 0) {
        Some(i) if i < probs.len() => probs[i],
        _ => 0,
    }
}

/// What becomes of a guess.
pub enum Check {
    /// It is kept.
    Keep,
    /// It is not: one of these places is drawn instead, in proportion to its
    /// probability. Where they have none together, the guess held all the mass and is
    /// kept.
    Redraw(Vec<usize>),
}

impl Sampler {
    /// Whether the highest logit is always taken.
    pub open spec fn greedy(self) -> bool {
        !is_nan(self.temp) && !greater(self.temp, 0)
    }

    pub fn is_greedy(&self) -> (r: bool)
        ensures
            r == self.greedy(),
    {
        !is_not_number(self.temp) && !is_greater(self.temp, 0)
    }

    /// The tokens whose logits are penalised, once each time they stand here.
    pub fn penalised(&self, history: &Vec<u32>) -> (r: Vec<u32>)
        ensures
            r@ == (if self.repeat_penalty == ONE {
                Seq::empty()
            } else {
                recent(history@, self.repeat_window as int)
            }),
    {
        let mut out: Vec<u32> = Vec::new();
        if self.repeat_penalty != ONE {
            let n: usize = if self.repeat_window < history.len() {
                self.repeat_window
            } else {
                history.len()
            };
            let mut i: usize = 0;
            while i < n
                invariant
                    i <= n <= history@.len(),
                    out@.len() == i,
                    forall|k: int| 0 <= k < i ==> (#[trigger] out@[k]) == history@[history@.len() - 1 - k],
                decreases n - i,
            {
                out.push(history[history.len() - 1 - i]);
                i += 1;
            }
            assert(out@ =~= recent(history@, self.repeat_window as int));
        } else {
            assert(out@ =~= Seq::empty());
        }
        out
    }

    /// The token with the highest logit.
    pub fn best(&self, logits: &Vec<u32>) -> (r: usize)
        ensures
            r == argmax(logits@, logits@.len()),
    {
        let mut best: usize = 0;
        let mut i: usize = 0;
        while i < logits.len()
            invariant
                i <= logits@.len(),
                best == argmax(logits@, i as nat),
                i > 0 ==> best < i,
                i == 0 ==> best == 0,
            decreases logits@.len() - i,
        {
            if is_greater(logits[i], logits[best]) {
                best = i;
            }
            i += 1;
        }
        best
    }

    /// The tokens that may be drawn, by descending logit: all, or the first `top_k`.
    pub fn candidates(&self, logits: &Vec<u32>) -> (r: Vec<u32>)
        ensures
            r@ == ids_of(
                chosen(
                    orders(logits@),
                    if self.top_k == 0 {
                        logits@.len() as int
                    } else {
                        self.top_k as int
                    },
                ),
            ),
    {
        let mut keys: Vec<u32> = Vec::new();
        let mut i: usize = 0;
        while i < logits.len()
            invariant
                i <= logits@.len(),
                keys@.len() == i,
                forall|k: int| 0 <= k < i ==> (#[trigger] keys@[k]) == order_of(logits@[k]),
            decreases logits@.len() - i,
        {
            keys.push(order_key(logits[i]));
            i += 1;
        }
        assert(keys@ =~= orders(logits@));
        let mut all: Ranking = ranking(&keys);
        let k: usize = if self.top_k == 0 {
            logits.len()
        } else {
            self.top_k
        };
        all.cut(k);
        let ghost v = chosen(orders(logits@), k as int);
        assert(all@ == v);
        let mut out: Vec<u32> = Vec::new();
        let mut j: usize = 0;
        while j < all.len()
            invariant
                j <= all@.len(),
                out@.len() == j,
                forall|k: int| 0 <= k < j ==> (#[trigger] out@[k]) == all@[k].1 as u32,
            decreases all@.len() - j,
        {
            out.push(
                #[verifier::truncate]
                (all.get(j).1 as u32),
            );
            j += 1;
        }
        assert(out@ =~= ids_of(v));
        out
    }

    /// How many candidates stay, by the running sums of their probabilities: those that
    /// together reach `top_p`, where that is more than zero and less than one.
    #[verifier::loop_isolation(false)]
    pub fn kept(&self, sums: &Vec<u32>) -> (r: usize)
        ensures
            r == (if greater(self.top_p, 0) && greater(ONE, self.top_p) {
                reached(sums@, self.top_p, 0)
            } else {
                sums@.len() as int
            }),
    {
        if is_greater(self.top_p, 0) && is_greater(ONE, self.top_p) {
            let mut i: usize = 0;
            while i < sums.len()
                invariant
                    i <= sums@.len(),
                    reached(sums@, self.top_p, 0) == reached(sums@, self.top_p, i as int),
                decreases sums@.len() - i,
            {
                if !is_not_number(sums[i]) && !is_not_number(self.top_p) && !is_greater(self.top_p, sums[i]) {
                    return i + 1;
                }
                i += 1;
            }
        }
        sums.len()
    }

    /// Pick the next token from the candidates, by the running sums of their
    /// probabilities. Where there is only one, nothing is drawn.
    #[verifier::loop_isolation(false)]
    pub fn pick(&self, ids: &Vec<u32>, sums: &Vec<u32>, rng: &mut Rng) -> (r: u32)
        ensures
            ids@.len() == 1 ==> r == ids@[0] && *final(rng) == *old(rng),
            ids@.len() != 1 ==> {
                &&& final(rng).state == stirred(old(rng).state)
                &&& r == picked(ids@, sums@, fraction(drawn_from(stirred(old(rng).state))))
            },
    {
        if ids.len() == 1 {
            return ids[0];
        }
        let r: u32 = rng.next_f32();
        let mut i: usize = 0;
        while i < sums.len() && !is_greater(sums[i], r)
            invariant
                i <= sums@.len(),
                passed(sums@, r, 0) == passed(sums@, r, i as int),
            decreases sums@.len() - i,
        {
            i += 1;
        }
        if i < sums.len() && i < ids.len() {
            ids[i]
        } else if ids.len() == 0 {
            0
        } else {
            ids[ids.len() - 1]
        }
    }

    /// Verify a token that some cheaper process guessed would come next.
    ///
    /// The guess is kept with its probability under the true distribution, and otherwise
    /// one of the other candidates is drawn. For a drafter that proposes one token with
    /// certainty that is the standard rejection correction, and it leaves the marginal
    /// distribution of every emitted token untouched. Greedy decoding is the degenerate
    /// case: one candidate with certainty.
    pub fn verify(&self, ids: &Vec<u32>, probs: &Vec<u32>, guess: u32, rng: &mut Rng) -> (r: Check)
        ensures
            final(rng).state == stirred(old(rng).state),
            ({
                let kept = greater(
                    chance(ids@, probs@, guess),
                    fraction(drawn_from(stirred(old(rng).state))),
                ) || others(ids@, guess, ids@.len()).len() == 0;
                match r {
                    Check::Keep => kept,
                    Check::Redraw(v) => !kept && v@ == others(ids@, guess, ids@.len()),
                }
            }),
    {
        let mut p: u32 = 0;
        let mut found: bool = false;
        let mut rest: Vec<usize> = Vec::new();
        let mut i: usize = 0;
        while i < ids.len()
            invariant
                i <= ids@.len(),
                rest@ == others(ids@, guess, i as nat),
                !found ==> p == 0 && place_of(ids@, guess, 0) == place_of(ids@, guess, i as int),
                found ==> p == chance(ids@, probs@, guess),
            decreases ids@.len() - i,
        {
            if ids[i] == guess {
                if !found {
                    found = true;
                    if i < probs.len() {
                        p = probs[i];
                    }
                }
            } else {
                rest.push(i);
            }
            i += 1;
        }
        let r: u32 = rng.next_f32();
        if is_greater(p, r) || rest.len() == 0 {
            Check::Keep
        } else {
            Check::Redraw(rest)
        }
    }
}

fn is_not_number(bits: u32) -> (r: bool)
    ensures
        r == is_nan(bits),
{
    (0x7f80_0000 < bits && bits < 0x8000_0000) || bits > 0xff80_0000
}

proof fn lemma_argmax(v: Seq<u32>, n: nat)
    requires
        n <= v.len(),
    ensures
        n > 0 ==> 0 <= argmax(v, n) < n,
        n == 0 ==> argmax(v, n) == 0,
    decreases n,
{
    if n > 0 {
        lemma_argmax(v, (n - 1) as nat);
    }
}

/// Greedy decoding takes the argmax: no logit is greater than the one that is picked,
/// and where all are numbers it is greater than all before it.
pub proof fn law_greedy_is_highest(v: Seq<u32>, n: nat, i: int)
    requires
        0 < n <= v.len(),
        0 <= i < n,
    ensures
        0 <= argmax(v, n) < n,
        !greater(v[i], v[argmax(v, n)]),
        i < argmax(v, n) && !is_nan(v[i]) ==> greater(v[argmax(v, n)], v[i]),
    decreases n,
{
    lemma_argmax(v, n);
    lemma_argmax(v, (n - 1) as nat);
    if n > 1 {
        let b = argmax(v, (n - 1) as nat);
        law_greedy_is_highest(v, (n - 1) as nat, b);
        if i < n - 1 {
            law_greedy_is_highest(v, (n - 1) as nat, i);
        }
    }
}

/// Speculation is lossless where decoding is greedy: with the argmax as the only
/// candidate, at probability one, a guess is kept exactly when it is the argmax, whatever
/// is drawn, and otherwise the argmax is what is drawn instead.
pub proof fn law_greedy_verification_is_the_argmax(best: u32, guess: u32, r: u32)
    requires
        r < ONE,
    ensures
        ({
            let ids = seq![best];
            let probs = seq![ONE];
            let rest = others(ids, guess, 1);
            &&& (greater(chance(ids, probs, guess), r) || rest.len() == 0) <==> guess == best
            &&& guess != best ==> rest == seq![0usize]
        }),
{
    let ids = seq![best];
    reveal_with_fuel(others, 2);
    reveal_with_fuel(place_of, 3);
    assert(ids[0] == best);
    if guess == best {
        assert(chance(ids, seq![ONE], guess) == ONE);
        law_order_is_faithful(r, ONE);
    } else {
        assert(others(ids, guess, 1) =~= seq![0usize]);
        assert(chance(ids, seq![ONE], guess) == 0);
    }
}

/// Truncation binds on verification: a token that is no candidate has no chance, so it
/// is kept only where nothing else could be drawn.
pub proof fn law_truncation_binds(ids: Seq<u32>, probs: Seq<u32>, guess: u32, r: u32)
    requires
        !ids.contains(guess),
        r < ONE,
    ensures
        !greater(chance(ids, probs, guess), r),
        others(ids, guess, ids.len()).len() == ids.len(),
{
    lemma_absent(ids, guess, 0);
    lemma_others(ids, guess, ids.len());
}

proof fn lemma_absent(ids: Seq<u32>, guess: u32, i: int)
    requires
        !ids.contains(guess),
        0 <= i <= ids.len(),
    ensures
        place_of(ids, guess, i) is None,
    decreases ids.len() - i,
{
    if i < ids.len() {
        assert(ids.contains(ids[i]));
        lemma_absent(ids, guess, i + 1);
    }
}

proof fn lemma_others(ids: Seq<u32>, guess: u32, n: nat)
    requires
        !ids.contains(guess),
        n <= ids.len(),
    ensures
        others(ids, guess, n).len() == n,
    decreases n,
{
    if n > 0 {
        assert(ids.contains(ids[n - 1]));
        lemma_others(ids, guess, (n - 1) as nat);
    }
}

} // verus!
