//! What choosing means: the highest scores win, the best candidates stay, and a draw falls where
//! its number says.

use vstd::prelude::*;
use vstd::std_specs::num::*;
use crate::float::{greater, order_of};
use crate::gate::{chosen, group_masked, holds, lemma_chosen, masked};
use crate::rank::outranks;
use crate::sample::{
    chance, drawn_from, ids_of, orders, others, passed, picked, place_of, reached, recent, seeded, stirred, Sampler,
};

verus! {

/// No score that is passed over is higher than one that is chosen, and none as high has a lower
/// number.
pub proof fn law_highest_are_chosen(keys: Seq<u32>, k: int, i: int, e: u64)
    requires
        keys.len() <= u64::MAX,
        0 <= k,
        0 <= i < chosen(keys, k).len(),
        e < keys.len(),
        !holds(chosen(keys, k), e),
    ensures
        keys[chosen(keys, k)[i].1 as int] >= keys[e as int],
        keys[chosen(keys, k)[i].1 as int] == keys[e as int] ==> chosen(keys, k)[i].1 < e,
{
    crate::gate::law_best_are_chosen(keys, k, i, e);
    lemma_chosen(keys, k);
}

/// The choice is in order, the highest score first, as many as were asked for where there are as
/// many, and each one once.
pub proof fn law_choice_is_in_order(keys: Seq<u32>, k: int, i: int, j: int)
    requires
        keys.len() <= u64::MAX,
        0 <= k,
    ensures
        chosen(keys, k).len() == (if k < keys.len() { k } else { keys.len() as int }),
        0 <= i < j < chosen(keys, k).len() ==> {
            let a = chosen(keys, k)[i].1;
            let b = chosen(keys, k)[j].1;
            a < keys.len() && b < keys.len() && a != b && keys[a as int] >= keys[b as int] && (keys[a as int] == keys[b as int]
                ==> a < b)
        },
{
    lemma_chosen(keys, k);
    let v = chosen(keys, k);
    if 0 <= i < j < v.len() {
        assert(outranks(v[i], v[j]));
        assert(v[i].0 == keys[v[i].1 as int] && v[j].0 == keys[v[j].1 as int]);
    }
}

/// A disabled expert has the score of minus infinity, and every other its own.
pub proof fn law_disabled_have_no_score(keys: Seq<u32>, disabled: Seq<usize>, i: int)
    requires
        0 <= i < keys.len() <= usize::MAX,
    ensures
        disabled.contains(i as usize) ==> masked(keys, disabled)[i] == order_of(0xff80_0000),
        !disabled.contains(i as usize) ==> masked(keys, disabled)[i] == keys[i],
{
}

/// Experts of a group that is not among the highest lose their score, and those of the highest
/// groups keep theirs.
pub proof fn law_weak_groups_are_masked(keys: Seq<u32>, groups: Seq<u32>, keep: int, g: int, j: int, per: int)
    requires
        0 < groups.len() <= u64::MAX,
        0 <= keep,
        0 < per,
        keys.len() == groups.len() * per,
        0 <= g < groups.len(),
        0 <= j < per,
    ensures
        holds(chosen(groups, keep), g as u64) ==> group_masked(keys, groups, keep)[g * per + j] == keys[g * per + j],
        !holds(chosen(groups, keep), g as u64) ==> group_masked(keys, groups, keep)[g * per + j] == order_of(0xff80_0000),
{
    let n = groups.len() as int;
    assert((n * per) / n == per) by (nonlinear_arith)
        requires
            n > 0,
    ;
    assert((g * per + j) / per == g) by (nonlinear_arith)
        requires
            0 <= j < per,
            0 <= g,
    ;
    assert(0 <= g * per + j < n * per) by (nonlinear_arith)
        requires
            0 <= j < per,
            0 <= g < n,
    ;
}

/// Numbers compare as numbers: a positive one is greater than a negative one, of two positive ones
/// the one of higher magnitude is greater, of two negative ones the one of lower; the two zeros are
/// equal, and what is no number is neither greater nor less.
pub proof fn law_numbers_compare(a: u32, b: u32)
    ensures
        0 < a <= 0x7f80_0000 && 0x8000_0000 <= b <= 0xff80_0000 ==> greater(a, b) && !greater(b, a),
        a <= 0x7f80_0000 && b <= 0x7f80_0000 ==> (greater(a, b) <==> a > b),
        0x8000_0000 <= a <= 0xff80_0000 && 0x8000_0000 <= b <= 0xff80_0000 ==> (greater(a, b) <==> a < b),
        !greater(0, 0x8000_0000) && !greater(0x8000_0000, 0),
        0x7f80_0000 < a < 0x8000_0000 || a > 0xff80_0000 ==> !greater(a, b) && !greater(b, a),
{
}

/// Decoding is greedy where the temperature is zero or below.
pub proof fn law_greedy_is_cold(s: Sampler)
    ensures
        s.temp == 0 || 0x8000_0000 <= s.temp <= 0xff80_0000 ==> s.greedy(),
        0 < s.temp <= 0x7f80_0000 ==> !s.greedy(),
{
}

/// The tokens that are penalised are the last of the history, at most as many as the window holds.
pub proof fn law_recent_are_the_last(history: Seq<u32>, window: int, t: u32, i: int)
    requires
        0 <= window,
    ensures
        recent(history, 0) == Seq::<u32>::empty(),
        recent(history.push(t), window + 1) == seq![t] + recent(history, window),
        recent(history, window).len() == (if window < history.len() { window } else { history.len() as int }),
        0 <= i < recent(history, window).len() ==> recent(history, window)[i] == history[history.len() - 1 - i],
{
    assert(recent(history, 0) =~= Seq::<u32>::empty());
    assert(recent(history.push(t), window + 1) =~= seq![t] + recent(history, window));
}

/// Candidates stay up to and including the first whose running sum is not below the bound; where
/// no sum reaches it, all stay.
pub proof fn law_mass_is_reached(sums: Seq<u32>, bound: u32, k: int)
    requires
        bound <= 0x7f80_0000,
        forall|i: int| 0 <= i < sums.len() ==> #[trigger] sums[i] <= 0x7f80_0000,
        0 <= k <= sums.len(),
        forall|i: int| 0 <= i < k ==> #[trigger] sums[i] < bound,
        k < sums.len() ==> sums[k] >= bound,
    ensures
        reached(sums, bound, 0) == (if k < sums.len() { k + 1 } else { k }),
{
    lemma_reached(sums, bound, 0, k);
}

proof fn lemma_reached(sums: Seq<u32>, bound: u32, from: int, k: int)
    requires
        bound <= 0x7f80_0000,
        forall|i: int| 0 <= i < sums.len() ==> #[trigger] sums[i] <= 0x7f80_0000,
        0 <= from <= k <= sums.len(),
        forall|i: int| 0 <= i < k ==> #[trigger] sums[i] < bound,
        k < sums.len() ==> sums[k] >= bound,
    ensures
        reached(sums, bound, from) == (if k < sums.len() { k + 1 } else { k }),
    decreases k - from,
{
    if from < k {
        assert(sums[from] < bound);
        lemma_reached(sums, bound, from + 1, k);
    }
}

/// A draw picks the first candidate whose running sum is above it, and the last where none is.
pub proof fn law_draws_fall_into_place(ids: Seq<u32>, sums: Seq<u32>, r: u32, k: int)
    requires
        0 < ids.len() == sums.len(),
        r <= 0x7f80_0000,
        forall|i: int| 0 <= i < sums.len() ==> #[trigger] sums[i] <= 0x7f80_0000,
        0 <= k <= sums.len(),
        forall|i: int| 0 <= i < k ==> #[trigger] sums[i] <= r,
        k < sums.len() ==> sums[k] > r,
    ensures
        picked(ids, sums, r) == (if k < ids.len() { ids[k] } else { ids[ids.len() - 1] }),
{
    lemma_passed(sums, r, 0, k);
}

proof fn lemma_passed(sums: Seq<u32>, r: u32, from: int, k: int)
    requires
        r <= 0x7f80_0000,
        forall|i: int| 0 <= i < sums.len() ==> #[trigger] sums[i] <= 0x7f80_0000,
        0 <= from <= k <= sums.len(),
        forall|i: int| 0 <= i < k ==> #[trigger] sums[i] <= r,
        k < sums.len() ==> sums[k] > r,
    ensures
        passed(sums, r, from) == k,
    decreases k - from,
{
    if from < k {
        assert(sums[from] <= r);
        lemma_passed(sums, r, from + 1, k);
    }
}

/// The chance of a guess is that of its candidate, and none where it is no candidate; what may be
/// drawn instead are the other candidates, all of them.
pub proof fn law_guesses_have_their_chance(ids: Seq<u32>, probs: Seq<u32>, guess: u32, i: int)
    requires
        ids.len() == probs.len() <= usize::MAX,
        0 <= i < ids.len(),
        forall|j: int| 0 <= j < i ==> #[trigger] ids[j] != guess,
    ensures
        ids[i] == guess ==> chance(ids, probs, guess) == probs[i],
        others(ids, guess, ids.len()).contains(i as usize) <==> ids[i] != guess,
{
    if ids[i] == guess {
        lemma_place(ids, guess, 0, i);
    }
    lemma_others(ids, guess, ids.len());
}

proof fn lemma_place(ids: Seq<u32>, guess: u32, from: int, i: int)
    requires
        0 <= from <= i < ids.len(),
        ids[i] == guess,
        forall|j: int| 0 <= j < i ==> #[trigger] ids[j] != guess,
    ensures
        place_of(ids, guess, from) == Some(i),
    decreases i - from,
{
    if from < i {
        assert(ids[from] != guess);
        lemma_place(ids, guess, from + 1, i);
    }
}

proof fn lemma_others(ids: Seq<u32>, guess: u32, n: nat)
    requires
        n <= ids.len() <= usize::MAX,
    ensures
        forall|k: usize| #[trigger] others(ids, guess, n).contains(k) <==> k < n && ids[k as int] != guess,
    decreases n,
{
    if n > 0 {
        lemma_others(ids, guess, (n - 1) as nat);
        let before = others(ids, guess, (n - 1) as nat);
        let after = others(ids, guess, n);
        assert forall|k: usize| #[trigger] after.contains(k) <==> k < n && ids[k as int] != guess by {
            if before.contains(k) {
                let q = choose|q: int| 0 <= q < before.len() && before[q] == k;
                assert(after[q] == k);
            }
            if after.contains(k) {
                let q = choose|q: int| 0 <= q < after.len() && after[q] == k;
                if q < before.len() {
                    assert(before[q] == k);
                }
            }
            if k == n - 1 && ids[k as int] != guess {
                assert(after[before.len() as int] == k);
            }
        }
    }
}

/// The stirring of the generator is linear over its bits, so what it does to two of them tells what
/// it does to all: bit zero reaches bit 25, and bit 63 reaches bits 51, 36 and 24.
pub proof fn law_stirring_is_linear(x: u64, y: u64)
    ensures
        stirred(x ^ y) == stirred(x) ^ stirred(y),
        stirred(1) == 0x200_0001,
        stirred(0x8000_0000_0000_0000) == 0x8008_0010_0100_0000,
        x < 0x1000 ==> stirred(x) == x ^ (x << 25) ^ (((x ^ (x << 25)) >> 27)),
{
    assert(stirred(x ^ y) == stirred(x) ^ stirred(y) && stirred(1) == 0x200_0001 && stirred(0x8000_0000_0000_0000)
        == 0x8008_0010_0100_0000 && (x < 0x1000 ==> stirred(x) == x ^ (x << 25) ^ (((x ^ (x << 25)) >> 27)))) by (bit_vector);
}

/// A seed is spread by an odd multiplier and made odd; a draw is the top 24 bits of another product.
pub proof fn law_draws_are_the_top_bits(seed: u64, x: u64)
    ensures
        seeded(seed) % 2 == 1,
        seeded(seed) as int == (seed * 0x9e37_79b9_7f4a_7c15) % 0x1_0000_0000_0000_0000 || seeded(seed) as int == (seed
            * 0x9e37_79b9_7f4a_7c15) % 0x1_0000_0000_0000_0000 + 1,
        drawn_from(x) as int == (x * 0x2545_f491_4f6c_dd1d) % 0x1_0000_0000_0000_0000 / 0x100_0000_0000,
        drawn_from(x) < 0x100_0000,
{
    let m = seed.wrapping_mul(0x9e37_79b9_7f4a_7c15);
    assert((m | 1) % 2 == 1 && (m | 1 == m || m | 1 == m + 1)) by (bit_vector);
    let p = x.wrapping_mul(0x2545_f491_4f6c_dd1d);
    assert(p >> 40 == p / 0x100_0000_0000 && p >> 40 < 0x100_0000) by (bit_vector);
}

/// Candidates are numbered by their place among the logits, the highest logit first.
pub proof fn law_candidates_go_by_logit(logits: Seq<u32>, k: int, i: int, j: int)
    requires
        logits.len() <= u32::MAX,
        0 <= k,
        0 <= i < j < ids_of(chosen(orders(logits), k)).len(),
    ensures
        ({
            let v = ids_of(chosen(orders(logits), k));
            v[i] < logits.len() && v[j] < logits.len() && !greater(logits[v[j] as int], logits[v[i] as int])
        }),
{
    law_choice_is_in_order(orders(logits), k, i, j);
}

} // verus!
