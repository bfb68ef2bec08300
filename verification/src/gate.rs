//! Routing decisions: which experts a token is given, and which tokens an expert.
//!
//! Scores come as integers that order as the scores do.

use vstd::prelude::*;
use crate::float::{lowest_order, order_key};
use crate::rank::{descending, inserted, outranks, Ranking};
use crate::route::capped;

verus! {

/// Scores without the disabled experts: those are unrankable, so the selection fills
/// up with whatever the router liked next.
pub open spec fn masked(keys: Seq<u32>, disabled: Seq<usize>) -> Seq<u32> {
    Seq::new(
        keys.len(),
        |i: int|
            if disabled.contains(i as usize) {
                lowest_order()
            } else {
                keys[i]
            },
    )
}

/// The first `n` experts by score.
pub open spec fn ranked(keys: Seq<u32>, n: nat) -> Seq<(u64, u64)>
    decreases n,
{
    if n == 0 || n > keys.len() {
        Seq::empty()
    } else {
        inserted(ranked(keys, (n - 1) as nat), (keys[n - 1] as u64, (n - 1) as u64))
    }
}

/// The `k` best experts, strongest first.
pub open spec fn chosen(keys: Seq<u32>, k: int) -> Seq<(u64, u64)> {
    let all = ranked(keys, keys.len());
    if k < all.len() {
        all.take(k)
    } else {
        all
    }
}

/// Whether an expert is among those chosen.
pub open spec fn holds(v: Seq<(u64, u64)>, e: u64) -> bool {
    exists|i: int| 0 <= i < v.len() && (#[trigger] v[i]).1 == e
}

/// A choice with an expert forced into it: it takes the weakest slot, so there are no
/// more than before.
pub open spec fn forced_one(v: Seq<(u64, u64)>, keys: Seq<u32>, e: usize) -> Seq<(u64, u64)> {
    if e >= keys.len() || holds(v, e as u64) {
        v
    } else {
        let rest = if v.len() > 0 {
            v.drop_last()
        } else {
            v
        };
        inserted(rest, (keys[e as int] as u64, e as u64))
    }
}

/// A choice with the first `n` of some experts forced into it, one after another.
pub open spec fn forced_all(v: Seq<(u64, u64)>, keys: Seq<u32>, forced: Seq<usize>, n: nat) -> Seq<(u64, u64)>
    decreases n,
{
    if n == 0 || n > forced.len() {
        v
    } else {
        forced_one(forced_all(v, keys, forced, (n - 1) as nat), keys, forced[n - 1])
    }
}

/// The experts a token is given, strongest first.
pub open spec fn selected(keys: Seq<u32>, disabled: Seq<usize>, forced: Seq<usize>, k: int) -> Seq<(u64, u64)> {
    let m = masked(keys, disabled);
    forced_all(chosen(m, k), m, forced, forced.len())
}

/// What holds of every choice: in order, each with its own score.
pub open spec fn orderly(v: Seq<(u64, u64)>, keys: Seq<u32>) -> bool {
    &&& descending(v)
    &&& forall|i: int| 0 <= i < v.len() ==> (#[trigger] v[i]).1 < keys.len() && v[i].0 == keys[v[i].1 as int]
}

proof fn lemma_fresh(v: Seq<(u64, u64)>, keys: Seq<u32>, e: u64)
    requires
        orderly(v, keys),
        e < keys.len(),
        !holds(v, e),
    ensures
        !v.contains((keys[e as int] as u64, e)),
        orderly(inserted(v, (keys[e as int] as u64, e)), keys),
        inserted(v, (keys[e as int] as u64, e)).len() == v.len() + 1,
        holds(inserted(v, (keys[e as int] as u64, e)), e),
{
    let x = (keys[e as int] as u64, e);
    if v.contains(x) {
        let i = choose|i: int| 0 <= i < v.len() && v[i] == x;
        assert(v[i].1 == e);
    }
    crate::rank::lemma_inserted(v, x);
    let w = inserted(v, x);
    assert forall|i: int| 0 <= i < w.len() implies (#[trigger] w[i]).1 < keys.len() && w[i].0 == keys[w[i].1 as int] by {
        assert(w.contains(w[i]));
        if w[i] != x {
            let j = choose|j: int| 0 <= j < v.len() && v[j] == w[i];
            assert(v[j].1 < keys.len());
        }
    }
    assert(w.contains(x));
    let i = choose|i: int| 0 <= i < w.len() && w[i] == x;
    assert(w[i].1 == e);
}

pub(crate) proof fn lemma_ranked(keys: Seq<u32>, n: nat)
    requires
        n <= keys.len(),
        keys.len() <= u64::MAX,
    ensures
        orderly(ranked(keys, n), keys),
        ranked(keys, n).len() == n,
        forall|e: u64| #[trigger] holds(ranked(keys, n), e) ==> e < n,
        forall|e: u64| e < n ==> #[trigger] ranked(keys, n).contains((keys[e as int] as u64, e)),
    decreases n,
{
    if n > 0 {
        lemma_ranked(keys, (n - 1) as nat);
        let v = ranked(keys, (n - 1) as nat);
        let e = (n - 1) as u64;
        let x = (keys[n - 1] as u64, e);
        lemma_fresh(v, keys, e);
        crate::rank::lemma_inserted(v, x);
        let w = ranked(keys, n);
        assert forall|y: u64| #[trigger] holds(w, y) implies y < n by {
            let i = choose|i: int| 0 <= i < w.len() && (#[trigger] w[i]).1 == y;
            assert(w.contains(w[i]));
            if w[i] != x {
                let j = choose|j: int| 0 <= j < v.len() && v[j] == w[i];
                assert(holds(v, y)) by {
                    assert(v[j].1 == y);
                }
            }
        }
        assert forall|y: u64| y < n implies #[trigger] w.contains((keys[y as int] as u64, y)) by {
            if y < n - 1 {
                assert(v.contains((keys[y as int] as u64, y)));
            }
        }
    }
}

proof fn lemma_part(v: Seq<(u64, u64)>, keys: Seq<u32>, k: int)
    requires
        orderly(v, keys),
        0 <= k <= v.len(),
    ensures
        orderly(v.take(k), keys),
{
    let w = v.take(k);
    assert forall|i: int, j: int| 0 <= i < j < w.len() implies outranks(#[trigger] w[i], #[trigger] w[j]) by {
        assert(outranks(v[i], v[j]));
    }
    assert forall|i: int| 0 <= i < w.len() implies (#[trigger] w[i]).1 < keys.len() && w[i].0 == keys[w[i].1 as int] by {
        assert(w[i] == v[i]);
    }
}

pub(crate) proof fn lemma_chosen(keys: Seq<u32>, k: int)
    requires
        keys.len() <= u64::MAX,
        k >= 0,
    ensures
        orderly(chosen(keys, k), keys),
        chosen(keys, k).len() == (if k < keys.len() {
            k
        } else {
            keys.len() as int
        }),
{
    lemma_ranked(keys, keys.len());
    let all = ranked(keys, keys.len());
    if k < all.len() {
        lemma_part(all, keys, k);
    }
}

proof fn lemma_forced(v: Seq<(u64, u64)>, keys: Seq<u32>, e: usize)
    requires
        orderly(v, keys),
        keys.len() <= u64::MAX,
    ensures
        orderly(forced_one(v, keys, e), keys),
        e < keys.len() ==> holds(forced_one(v, keys, e), e as u64),
        v.len() > 0 ==> forced_one(v, keys, e).len() == v.len(),
{
    if e < keys.len() && !holds(v, e as u64) {
        let rest = if v.len() > 0 {
            v.drop_last()
        } else {
            v
        };
        if v.len() > 0 {
            lemma_part(v, keys, v.len() - 1);
            assert(rest =~= v.take(v.len() - 1));
        }
        if holds(rest, e as u64) {
            let i = choose|i: int| 0 <= i < rest.len() && (#[trigger] rest[i]).1 == e as u64;
            assert(v[i].1 == e as u64);
        }
        lemma_fresh(rest, keys, e as u64);
    }
}

/// The best are chosen: whoever is not chosen is outranked by all that are.
pub proof fn law_best_are_chosen(keys: Seq<u32>, k: int, i: int, e: u64)
    requires
        keys.len() <= u64::MAX,
        0 <= k,
        0 <= i < chosen(keys, k).len(),
        e < keys.len(),
        !holds(chosen(keys, k), e),
    ensures
        outranks(chosen(keys, k)[i], (keys[e as int] as u64, e)),
{
    lemma_ranked(keys, keys.len());
    let all = ranked(keys, keys.len());
    let x = (keys[e as int] as u64, e);
    assert(all.contains(x));
    let j = choose|j: int| 0 <= j < all.len() && all[j] == x;
    if j < chosen(keys, k).len() {
        assert(chosen(keys, k)[j].1 == e);
        assert(holds(chosen(keys, k), e));
    }
    assert(outranks(all[i], all[j]));
}

/// A choice is as wide as asked for, or as there are experts, and forcing an expert
/// into it makes it no wider.
pub proof fn law_choice_keeps_its_width(keys: Seq<u32>, disabled: Seq<usize>, forced: Seq<usize>, k: int, n: nat)
    requires
        keys.len() <= u64::MAX,
        0 < k,
        0 < keys.len(),
        n <= forced.len(),
    ensures
        ({
            let m = masked(keys, disabled);
            let v = forced_all(chosen(m, k), m, forced, n);
            &&& orderly(v, m)
            &&& v.len() == (if k < keys.len() {
                k
            } else {
                keys.len() as int
            })
        }),
    decreases n,
{
    let m = masked(keys, disabled);
    if n == 0 {
        lemma_chosen(m, k);
    } else {
        law_choice_keeps_its_width(keys, disabled, forced, k, (n - 1) as nat);
        lemma_forced(forced_all(chosen(m, k), m, forced, (n - 1) as nat), m, forced[n - 1]);
    }
}

/// The expert forced last is always selected.
pub proof fn law_forced_is_selected(keys: Seq<u32>, disabled: Seq<usize>, forced: Seq<usize>, k: int)
    requires
        keys.len() <= u64::MAX,
        0 < k,
        forced.len() > 0,
        forced.last() < keys.len(),
    ensures
        holds(selected(keys, disabled, forced, k), forced.last() as u64),
{
    let m = masked(keys, disabled);
    law_choice_keeps_its_width(keys, disabled, forced, k, (forced.len() - 1) as nat);
    lemma_forced(forced_all(chosen(m, k), m, forced, (forced.len() - 1) as nat), m, forced.last());
}

/// A disabled expert is passed over while another is left: nobody chosen is disabled
/// where somebody who is neither disabled nor as bad as that is not chosen.
pub proof fn law_disabled_is_passed_over(keys: Seq<u32>, disabled: Seq<usize>, k: int, i: int, e: u64)
    requires
        keys.len() <= usize::MAX,
        0 <= k,
        0 <= i < chosen(masked(keys, disabled), k).len(),
        e < keys.len(),
        !disabled.contains(e as usize),
        keys[e as int] > lowest_order(),
        !holds(chosen(masked(keys, disabled), k), e),
    ensures
        !disabled.contains(chosen(masked(keys, disabled), k)[i].1 as usize),
{
    let m = masked(keys, disabled);
    law_best_are_chosen(m, k, i, e);
    lemma_chosen(m, k);
    let x = chosen(m, k)[i];
    assert(x.0 == m[x.1 as int]);
}

/// The scores of those experts that are kept, in their order.
pub open spec fn narrowed(keys: Seq<u32>, kept: Seq<u32>) -> Seq<u32> {
    Seq::new(kept.len(), |j: int| keys[kept[j] as int])
}

/// Whether experts are listed in ascending order, and exist.
pub open spec fn ascending_below(kept: Seq<u32>, n: nat) -> bool {
    &&& forall|i: int, j: int| 0 <= i < j < kept.len() ==> kept[i] < kept[j]
    &&& forall|i: int| 0 <= i < kept.len() ==> (#[trigger] kept[i]) < n
}

proof fn lemma_ascending(kept: Seq<u32>, n: nat, m: int)
    requires
        ascending_below(kept, n),
        0 <= m < kept.len(),
    ensures
        m <= kept[m],
    decreases m,
{
    if m > 0 {
        lemma_ascending(kept, n, m - 1);
        assert(kept[m - 1] < kept[m]);
    }
}

proof fn lemma_kept_choice(keys: Seq<u32>, kept: Seq<u32>, k: int, i: int)
    requires
        keys.len() <= u32::MAX,
        ascending_below(kept, keys.len()),
        0 <= k <= kept.len() <= keys.len(),
        forall|m: int| 0 <= m < k ==> kept.contains((#[trigger] ranked(keys, keys.len())[m]).1 as u32),
        0 <= i < k,
    ensures
        ({
            let a = ranked(narrowed(keys, kept), kept.len())[i];
            let b = ranked(keys, keys.len())[i];
            a.0 == b.0 && a.1 < kept.len() && kept[a.1 as int] == b.1
        }),
    decreases i,
{
    let small = narrowed(keys, kept);
    lemma_ranked(keys, keys.len());
    lemma_ranked(small, kept.len());
    let a = ranked(small, kept.len());
    let b = ranked(keys, keys.len());
    // The survivor of the one at `i` stands somewhere among the survivors.
    let e = b[i].1;
    assert(e < keys.len() && b[i].0 == keys[e as int]);
    assert(kept.contains(e as u32));
    let j = choose|j: int| 0 <= j < kept.len() && kept[j] == e as u32;
    let x = (small[j] as u64, j as u64);
    assert(a.contains(x));
    let p = choose|p: int| 0 <= p < a.len() && a[p] == x;
    if p < i {
        lemma_kept_choice(keys, kept, k, p);
        assert(b[p].1 == b[i].1);
        assert(outranks(b[p], b[i]));
    } else if p > i {
        assert(outranks(a[i], a[p]));
        let y = a[i].1;
        assert(y < kept.len() && a[i].0 == small[y as int]);
        let f = kept[y as int] as u64;
        let z = (keys[f as int] as u64, f);
        assert(b.contains(z));
        let q = choose|q: int| 0 <= q < b.len() && b[q] == z;
        if y < j {
            assert(kept[y as int] < kept[j]);
        }
        assert(outranks(z, b[i]));
        if q > i {
            assert(outranks(b[i], b[q]));
        }
        assert(q < i);
        lemma_kept_choice(keys, kept, k, q);
        let r = a[q].1;
        if r < y {
            assert(kept[r as int] < kept[y as int]);
        } else if y < r {
            assert(kept[y as int] < kept[r as int]);
        }
        assert(a[q] == a[i]);
        assert(outranks(a[q], a[i]));
    }
}

/// Pruning to the experts that are used loses nothing: where every expert that a token is
/// given is kept, the token is given the same ones, in the same order, among those that
/// are left.
pub proof fn law_pruning_keeps_the_choice(keys: Seq<u32>, kept: Seq<u32>, k: int, i: int)
    requires
        keys.len() <= u32::MAX,
        ascending_below(kept, keys.len()),
        0 <= k <= kept.len(),
        forall|m: int| 0 <= m < chosen(keys, k).len() ==> kept.contains((#[trigger] chosen(keys, k)[m]).1 as u32),
        0 <= i < chosen(keys, k).len(),
    ensures
        chosen(narrowed(keys, kept), k).len() == chosen(keys, k).len(),
        ({
            let a = chosen(narrowed(keys, kept), k)[i];
            let b = chosen(keys, k)[i];
            a.0 == b.0 && a.1 < kept.len() && kept[a.1 as int] == b.1
        }),
{
    lemma_chosen(keys, k);
    lemma_ascending(kept, keys.len(), kept.len() - 1);
    lemma_chosen(narrowed(keys, kept), k);
    lemma_ranked(keys, keys.len());
    let b = ranked(keys, keys.len());
    assert forall|m: int| 0 <= m < k implies kept.contains((#[trigger] b[m]).1 as u32) by {
        assert(chosen(keys, k)[m] == b[m]);
    }
    lemma_kept_choice(keys, kept, k, i);
}

fn is_among(v: &Vec<usize>, e: usize) -> (r: bool)
    ensures
        r == v@.contains(e),
{
    let mut i: usize = 0;
    while i < v.len()
        invariant
            i <= v@.len(),
            forall|k: int| 0 <= k < i ==> v@[k] != e,
        decreases v@.len() - i,
    {
        if v[i] == e {
            assert(v@[i as int] == e);
            return true;
        }
        i += 1;
    }
    false
}

fn mask(keys: &Vec<u32>, disabled: &Vec<usize>) -> (r: Vec<u32>)
    ensures
        r@ == masked(keys@, disabled@),
{
    let low: u32 = order_key(0xff80_0000);
    let mut out: Vec<u32> = Vec::new();
    let mut i: usize = 0;
    while i < keys.len()
        invariant
            i <= keys@.len(),
            low == lowest_order(),
            out@.len() == i,
            forall|k: int| 0 <= k < i ==> out@[k] == masked(keys@, disabled@)[k],
        decreases keys@.len() - i,
    {
        if is_among(disabled, i) {
            out.push(low);
        } else {
            out.push(keys[i]);
        }
        i += 1;
    }
    assert(out@ =~= masked(keys@, disabled@));
    out
}

fn is_held(r: &Ranking, e: u64) -> (b: bool)
    ensures
        b == holds(r@, e),
{
    let mut i: usize = 0;
    while i < r.len()
        invariant
            i <= r@.len(),
            forall|k: int| 0 <= k < i ==> (#[trigger] r@[k]).1 != e,
        decreases r@.len() - i,
    {
        if r.get(i).1 == e {
            assert(r@[i as int].1 == e);
            return true;
        }
        i += 1;
    }
    false
}

/// The experts a token is given, strongest first.
pub fn select(keys: &Vec<u32>, disabled: &Vec<usize>, forced: &Vec<usize>, top_k: usize) -> (r: Vec<usize>)
    ensures
        r@.len() == selected(keys@, disabled@, forced@, top_k as int).len(),
        forall|i: int| 0 <= i < r@.len() ==> r@[i] == selected(keys@, disabled@, forced@, top_k as int)[i].1,
        forall|i: int| 0 <= i < r@.len() ==> r@[i] < keys@.len(),
{
    let m: Vec<u32> = mask(keys, disabled);
    assert(keys.len() == keys@.len());
    let mut ranking = Ranking::new();
    let mut i: usize = 0;
    while i < m.len()
        invariant
            i <= m@.len(),
            m@.len() <= u64::MAX,
            ranking.valid(),
            ranking@ == ranked(m@, i as nat),
        decreases m@.len() - i,
    {
        proof {
            lemma_ranked(m@, i as nat);
            lemma_fresh(ranked(m@, i as nat), m@, i as u64);
        }
        ranking.enter(m[i] as u64, i as u64);
        i += 1;
    }
    ranking.cut(top_k);
    proof {
        lemma_chosen(m@, top_k as int);
        lemma_ranked(m@, m@.len());
    }
    let mut j: usize = 0;
    while j < forced.len()
        invariant
            j <= forced@.len(),
            m@.len() <= u64::MAX,
            ranking@ == forced_all(chosen(m@, top_k as int), m@, forced@, j as nat),
            orderly(ranking@, m@),
        decreases forced@.len() - j,
    {
        let e: usize = forced[j];
        proof {
            lemma_forced(ranking@, m@, e);
        }
        if e < m.len() && !is_held(&ranking, e as u64) {
            let ghost v = ranking@;
            if ranking.len() > 0 {
                let n: usize = ranking.len();
                ranking.cut(n - 1);
                assert(ranking@ =~= v.drop_last());
            }
            proof {
                let rest = ranking@;
                if v.len() > 0 {
                    lemma_part(v, m@, v.len() - 1);
                    assert(rest =~= v.take(v.len() - 1));
                }
                if holds(rest, e as u64) {
                    let i = choose|i: int| 0 <= i < rest.len() && (#[trigger] rest[i]).1 == e as u64;
                    assert(v[i].1 == e as u64);
                }
                lemma_fresh(rest, m@, e as u64);
            }
            ranking.enter(m[e] as u64, e as u64);
        }
        j += 1;
    }
    let mut out: Vec<usize> = Vec::new();
    let mut k: usize = 0;
    while k < ranking.len()
        invariant
            k <= ranking@.len(),
            orderly(ranking@, m@),
            m@.len() <= usize::MAX,
            out@.len() == k,
            forall|i: int| 0 <= i < k ==> out@[i] == ranking@[i].1 && out@[i] < m@.len(),
        decreases ranking@.len() - k,
    {
        let x: (u64, u64) = ranking.get(k);
        assert(ranking@[k as int].1 < m@.len());
        out.push(x.1 as usize);
        k += 1;
    }
    out
}

/// Whether selection is confined to the strongest groups: there is more than one, and not
/// all of them are kept.
pub open spec fn limits_groups(groups: int, keep: int) -> bool {
    groups > 1 && keep < groups
}

/// The experts of each group, as the first and the one past the last, where selection is
/// confined to the strongest groups; nothing where it is not.
pub fn group_bounds(experts: usize, groups: usize, keep: usize) -> (r: Option<Vec<(usize, usize)>>)
    ensures
        match r {
            None => !limits_groups(groups as int, keep as int),
            Some(v) => {
                let per = experts as int / groups as int;
                &&& limits_groups(groups as int, keep as int)
                &&& v@.len() == groups
                &&& forall|g: int|
                    0 <= g < groups ==> (#[trigger] v@[g]).0 == g * per && v@[g].1 == (g + 1) * per
                        && v@[g].1 <= experts
            },
        },
{
    if groups <= 1 || keep >= groups {
        return None;
    }
    let per: usize = experts / groups;
    let mut out: Vec<(usize, usize)> = Vec::new();
    let mut g: usize = 0;
    let mut from: usize = 0;
    while g < groups
        invariant
            g <= groups,
            groups > 1,
            per == experts as int / groups as int,
            from == g * per,
            out@.len() == g,
            forall|j: int|
                0 <= j < g ==> (#[trigger] out@[j]).0 == j * per && out@[j].1 == (j + 1) * per
                    && out@[j].1 <= experts,
        decreases groups - g,
    {
        assert((g + 1) * per == g * per + per && (g + 1) * per <= experts) by (nonlinear_arith)
            requires
                per == experts as int / groups as int,
                0 <= g < groups,
        ;
        out.push((from, from + per));
        from = from + per;
        g = g + 1;
    }
    Some(out)
}

/// The groups that are weighed are the groups that are masked: an expert lies inside a
/// group's bounds exactly where its place among the groups is that group.
pub proof fn law_groups_are_contiguous(expert: int, group: int, experts: int, groups: int)
    requires
        0 <= expert < experts,
        0 < groups <= experts,
        0 <= group < groups,
    ensures
        ({
            let per = experts / groups;
            group * per <= expert < (group + 1) * per <==> expert / per == group
        }),
{
    let per = experts / groups;
    assert(per >= 1) by (nonlinear_arith)
        requires
            per == experts / groups,
            0 < groups <= experts,
    ;
    assert(group * per <= expert < (group + 1) * per <==> expert / per == group) by (nonlinear_arith)
        requires
            per >= 1,
            0 <= expert,
    ;
}

/// Group-limited routing: scores with only the `keep` strongest groups left, the rest
/// masked out of the selection. Groups are contiguous and of one size; experts beyond
/// the last group keep their scores.
pub open spec fn group_masked(keys: Seq<u32>, groups: Seq<u32>, keep: int) -> Seq<u32> {
    let per = keys.len() as int / groups.len() as int;
    Seq::new(
        keys.len(),
        |i: int|
            if per > 0 && i / per < groups.len() && !holds(chosen(groups, keep), (i / per) as u64) {
                lowest_order()
            } else {
                keys[i]
            },
    )
}

/// Keep only the `keep` groups with the highest scores, masking the rest out of the
/// selection.
pub fn prune_groups(keys: &Vec<u32>, groups: &Vec<u32>, keep: usize) -> (r: Vec<u32>)
    requires
        groups@.len() > 0,
    ensures
        r@ == group_masked(keys@, groups@, keep as int),
{
    let none: Vec<usize> = Vec::new();
    let best: Vec<usize> = select(groups, &none, &none, keep);
    let ghost c = chosen(groups@, keep as int);
    assert(masked(groups@, none@) =~= groups@);
    assert(best@.len() == c.len());
    let per: usize = keys.len() / groups.len();
    let low: u32 = order_key(0xff80_0000);
    let mut out: Vec<u32> = Vec::new();
    let mut i: usize = 0;
    while i < keys.len()
        invariant
            i <= keys@.len(),
            groups@.len() > 0,
            per == keys@.len() as int / groups@.len() as int,
            low == lowest_order(),
            c == chosen(groups@, keep as int),
            best@.len() == c.len(),
            forall|k: int| 0 <= k < best@.len() ==> best@[k] == c[k].1,
            out@.len() == i,
            forall|k: int| 0 <= k < i ==> out@[k] == group_masked(keys@, groups@, keep as int)[k],
        decreases keys@.len() - i,
    {
        let dropped: bool = if per > 0 && i / per < groups.len() {
            let g: usize = i / per;
            let b: bool = is_among(&best, g);
            proof {
                if b {
                    let k = choose|k: int| 0 <= k < best@.len() && best@[k] == g;
                    assert(c[k].1 == g as u64);
                }
                if holds(c, g as u64) {
                    let k = choose|k: int| 0 <= k < c.len() && (#[trigger] c[k]).1 == g as u64;
                    assert(best@[k] == g);
                }
            }
            !b
        } else {
            false
        };
        if dropped {
            out.push(low);
        } else {
            out.push(keys[i]);
        }
        i += 1;
    }
    assert(out@ =~= group_masked(keys@, groups@, keep as int));
    out
}

/// The two strongest experts from `from` to before `to`, strongest first: what a group
/// is scored by. One or none where there are no more.
pub fn strongest_pair(keys: &Vec<u32>, from: usize, to: usize) -> (r: Vec<usize>)
    requires
        from <= to <= keys@.len(),
    ensures
        ({
            let c = chosen(keys@.subrange(from as int, to as int), 2);
            &&& r@.len() == c.len()
            &&& forall|i: int| 0 <= i < r@.len() ==> r@[i] == from + c[i].1
            &&& forall|i: int| 0 <= i < r@.len() ==> from <= #[trigger] r@[i] < to
        }),
{
    let mut sub: Vec<u32> = Vec::new();
    let mut i: usize = from;
    while i < to
        invariant
            from <= i <= to <= keys@.len(),
            sub@ == keys@.subrange(from as int, i as int),
        decreases to - i,
    {
        sub.push(keys[i]);
        i += 1;
        assert(sub@ =~= keys@.subrange(from as int, i as int));
    }
    let none: Vec<usize> = Vec::new();
    assert(masked(sub@, none@) =~= sub@);
    let best: Vec<usize> = select(&sub, &none, &none, 2);
    let mut out: Vec<usize> = Vec::new();
    let mut k: usize = 0;
    while k < best.len()
        invariant
            k <= best@.len(),
            from <= to,
            forall|j: int| 0 <= j < best@.len() ==> best@[j] < to - from,
            out@.len() == k,
            forall|j: int| 0 <= j < k ==> out@[j] == from + best@[j],
        decreases best@.len() - k,
    {
        out.push(from + best[k]);
        k += 1;
    }
    out
}

/// Where an expert stands among the first `m` of a token's: the token and the place.
pub open spec fn places_of(picks: Seq<usize>, token: usize, e: usize, m: nat) -> Seq<(usize, usize)>
    decreases m,
{
    if m == 0 || m > picks.len() {
        Seq::empty()
    } else {
        let rest = places_of(picks, token, e, (m - 1) as nat);
        if picks[m - 1] == e {
            rest.push((token, (m - 1) as usize))
        } else {
            rest
        }
    }
}

/// The tokens among the first `n` that an expert was chosen for, in order, each with
/// the place it has there.
pub open spec fn tokens_of(picks: Seq<Vec<usize>>, e: usize, n: nat) -> Seq<(usize, usize)>
    decreases n,
{
    if n == 0 || n > picks.len() {
        Seq::empty()
    } else {
        tokens_of(picks, e, (n - 1) as nat) + places_of(picks[n - 1]@, (n - 1) as usize, e, picks[n - 1]@.len())
    }
}

/// Invert the routing table, so each selected expert is loaded once per step and
/// applied to all of its tokens at once.
#[verifier::loop_isolation(false)]
pub fn by_expert(picks: &Vec<Vec<usize>>, n: usize) -> (r: Vec<Vec<(usize, usize)>>)
    requires
        forall|i: int, j: int| 0 <= i < picks@.len() && 0 <= j < picks@[i]@.len() ==> (#[trigger] picks@[i]@[j]) < n,
    ensures
        r@.len() == n,
        forall|e: int| 0 <= e < n ==> (#[trigger] r@[e])@ == tokens_of(picks@, e as usize, picks@.len()),
{
    let mut out: Vec<Vec<(usize, usize)>> = Vec::new();
    let mut e: usize = 0;
    while e < n
        invariant
            e <= n,
            out@.len() == e,
            forall|k: int| 0 <= k < e ==> (#[trigger] out@[k])@.len() == 0,
        decreases n - e,
    {
        out.push(Vec::new());
        e += 1;
    }
    assert forall|k: int| 0 <= k < n implies (#[trigger] out@[k])@ == tokens_of(picks@, k as usize, 0) by {
        assert(out@[k]@ =~= Seq::empty());
    }
    let mut i: usize = 0;
    while i < picks.len()
        invariant
            i <= picks@.len(),
            out@.len() == n,
            forall|k: int| 0 <= k < n ==> (#[trigger] out@[k])@ == tokens_of(picks@, k as usize, i as nat),
        decreases picks@.len() - i,
    {
        let p: &Vec<usize> = &picks[i];
        let mut j: usize = 0;
        assert forall|k: int| 0 <= k < n implies (#[trigger] out@[k])@ == tokens_of(picks@, k as usize, i as nat)
            + places_of(p@, i, k as usize, 0) by {
            assert(out@[k]@ =~= tokens_of(picks@, k as usize, i as nat) + Seq::<(usize, usize)>::empty());
        }
        while j < p.len()
            invariant
                j <= p@.len(),
                out@.len() == n,
                forall|k: int|
                    0 <= k < n ==> (#[trigger] out@[k])@ == tokens_of(picks@, k as usize, i as nat) + places_of(
                        p@,
                        i,
                        k as usize,
                        j as nat,
                    ),
            decreases p@.len() - j,
        {
            let e: usize = p[j];
            assert(picks@[i as int]@[j as int] < n);
            let ghost before = out@;
            out[e].push((i, j));
            proof {
                assert forall|k: int| 0 <= k < n implies (#[trigger] out@[k])@ == tokens_of(picks@, k as usize, i as nat)
                    + places_of(p@, i, k as usize, (j + 1) as nat) by {
                    let head = tokens_of(picks@, k as usize, i as nat);
                    assert(before[k]@ == head + places_of(p@, i, k as usize, j as nat));
                    if k == e {
                        assert(out@[k]@ =~= before[k]@.push((i, j)));
                        assert(out@[k]@ =~= head + places_of(p@, i, k as usize, j as nat).push((i, j)));
                    }
                }
            }
            j += 1;
        }
        i += 1;
    }
    out
}

/// The experts that have tokens, ascending.
pub open spec fn busy_below(by: Seq<Vec<(usize, usize)>>, n: nat) -> Seq<u32>
    decreases n,
{
    if n == 0 || n > by.len() {
        Seq::empty()
    } else {
        let rest = busy_below(by, (n - 1) as nat);
        if by[n - 1]@.len() > 0 {
            rest.push((n - 1) as u32)
        } else {
            rest
        }
    }
}

/// How many tokens the experts below `n` were given.
pub open spec fn given_below(by: Seq<Vec<(usize, usize)>>, n: nat) -> nat
    decreases n,
{
    if n == 0 || n > by.len() {
        0
    } else {
        given_below(by, (n - 1) as nat) + by[n - 1]@.len()
    }
}

/// How many tokens those of the experts below `n` were given that the last step used.
pub open spec fn reused_below(by: Seq<Vec<(usize, usize)>>, prev: Seq<u32>, n: nat) -> nat
    decreases n,
{
    if n == 0 || n > by.len() {
        0
    } else {
        reused_below(by, prev, (n - 1) as nat) + (if prev.contains((n - 1) as u32) {
            by[n - 1]@.len()
        } else {
            0nat
        })
    }
}

/// What a step did: the experts it used, how many tokens they were given, and how many
/// of those went to experts that the last step used too.
pub struct Used {
    pub hits: Vec<u32>,
    pub routed: u64,
    pub reused: u64,
}

fn was_used(prev: &Vec<u32>, e: u32) -> (r: bool)
    ensures
        r == prev@.contains(e),
{
    let mut i: usize = 0;
    while i < prev.len()
        invariant
            i <= prev@.len(),
            forall|k: int| 0 <= k < i ==> prev@[k] != e,
        decreases prev@.len() - i,
    {
        if prev[i] == e {
            assert(prev@[i as int] == e);
            return true;
        }
        i += 1;
    }
    false
}

/// What a step did.
pub fn account(by: &Vec<Vec<(usize, usize)>>, prev: &Vec<u32>) -> (r: Used)
    ensures
        r.hits@ == busy_below(by@, by@.len()),
        r.routed == capped(given_below(by@, by@.len())),
        r.reused == capped(reused_below(by@, prev@, by@.len())),
{
    let mut hits: Vec<u32> = Vec::new();
    let mut routed: u64 = 0;
    let mut reused: u64 = 0;
    let mut e: usize = 0;
    while e < by.len()
        invariant
            e <= by@.len(),
            hits@ == busy_below(by@, e as nat),
            routed == capped(given_below(by@, e as nat)),
            reused == capped(reused_below(by@, prev@, e as nat)),
        decreases by@.len() - e,
    {
        let n: u64 = by[e].len() as u64;
        let id: u32 = #[verifier::truncate]
        (e as u32);
        if n > 0 {
            hits.push(id);
        }
        routed = routed.saturating_add(n);
        if was_used(prev, id) {
            reused = reused.saturating_add(n);
        }
        e += 1;
    }
    Used { hits, routed, reused }
}

/// Every choice is carried out: each of a token's experts has that token among its
/// own, with its place.
pub proof fn law_every_choice_is_carried_out(picks: Seq<Vec<usize>>, n: nat, i: int, j: int)
    requires
        n <= picks.len(),
        n <= usize::MAX,
        0 <= i < n,
        0 <= j < picks[i]@.len(),
    ensures
        tokens_of(picks, picks[i]@[j], n).contains((i as usize, j as usize)),
    decreases n,
{
    let e = picks[i]@[j];
    let a = tokens_of(picks, e, (n - 1) as nat);
    let b = places_of(picks[n - 1]@, (n - 1) as usize, e, picks[n - 1]@.len());
    if i < n - 1 {
        law_every_choice_is_carried_out(picks, (n - 1) as nat, i, j);
        let k = choose|k: int| 0 <= k < a.len() && a[k] == (i as usize, j as usize);
        assert((a + b)[k] == (i as usize, j as usize));
    } else {
        let v = picks[i];
        assert(v@.len() == v.len());
        lemma_place(v@, i as usize, e, v@.len(), j);
        let k = choose|k: int| 0 <= k < b.len() && b[k] == (i as usize, j as usize);
        assert((a + b)[a.len() + k] == (i as usize, j as usize));
    }
}

proof fn lemma_place(p: Seq<usize>, token: usize, e: usize, m: nat, j: int)
    requires
        m <= p.len(),
        m <= usize::MAX,
        0 <= j < m,
        p[j] == e,
    ensures
        places_of(p, token, e, m).contains((token, j as usize)),
    decreases m,
{
    let rest = places_of(p, token, e, (m - 1) as nat);
    let all = places_of(p, token, e, m);
    if j < m - 1 {
        lemma_place(p, token, e, (m - 1) as nat, j);
        let k = choose|k: int| 0 <= k < rest.len() && rest[k] == (token, j as usize);
        assert(all[k] == (token, j as usize));
    } else {
        assert(all[rest.len() as int] == (token, j as usize));
    }
}

/// The first position that the one at `p` attends to.
pub open spec fn attends_from(p: int, window: Option<u32>) -> int {
    match window {
        None => 0,
        Some(w) => if p + 1 > w {
            p + 1 - w
        } else {
            0
        },
    }
}

/// A window shows as many positions as it is wide, the current one counted, and one that
/// is at least as wide as what there is shows everything, as no window does.
pub proof fn law_windows_show_their_width(p: int, w: u32)
    requires
        p >= 0,
    ensures
        w <= p + 1 ==> p + 1 - attends_from(p, Some(w)) == w,
        w >= p + 1 ==> attends_from(p, Some(w)) == attends_from(p, None),
{
}

/// The first position that the one at `p` attends to: a local layer attends to the
/// last `window` positions only, itself counted.
pub fn window_start(p: usize, window: Option<u32>) -> (r: usize)
    requires
        p < usize::MAX,
    ensures
        r == attends_from(p as int, window),
{
    match window {
        None => 0,
        Some(w) => {
            let w: usize = w as usize;
            if p + 1 > w {
                p + 1 - w
            } else {
                0
            }
        },
    }
}

/// The key-value head that a query head reads. Where there are twice as many query heads
/// or more, runs of them share one; otherwise each has its own, as far as there are any.
pub open spec fn shared_head(h: int, heads: int, kv_heads: int) -> int {
    let rep = heads / kv_heads;
    if rep > 1 {
        h / rep
    } else if h < kv_heads {
        h
    } else {
        kv_heads - 1
    }
}

/// Heads that divide evenly are shared evenly: every key-value head that is named exists,
/// and serves as many query heads as any other.
pub proof fn law_heads_share_evenly(h: int, heads: int, kv_heads: int)
    requires
        0 <= h < heads,
        0 < kv_heads,
        heads % kv_heads == 0,
    ensures
        0 <= shared_head(h, heads, kv_heads) < kv_heads,
        shared_head(h, heads, kv_heads) == h / (heads / kv_heads),
{
    let k = heads / kv_heads;
    assert(heads == kv_heads * k && k >= 1) by (nonlinear_arith)
        requires
            kv_heads > 0,
            heads % kv_heads == 0,
            k == heads / kv_heads,
            heads > 0,
    ;
    assert(0 <= h / k < kv_heads) by (nonlinear_arith)
        requires
            0 <= h < kv_heads * k,
            k >= 1,
    ;
    assert(k == 1 ==> h / k == h) by (nonlinear_arith)
        requires
            k >= 1,
    ;
}

/// The key-value head that a query head reads.
pub fn kv_head(h: usize, heads: usize, kv_heads: usize) -> (r: usize)
    requires
        kv_heads > 0,
    ensures
        r == shared_head(h as int, heads as int, kv_heads as int),
{
    let rep: usize = heads / kv_heads;
    if rep > 1 {
        h / rep
    } else if h < kv_heads {
        h
    } else {
        kv_heads - 1
    }
}

/// All scored things, the best first.
pub fn ranking(keys: &Vec<u32>) -> (r: Ranking)
    ensures
        r.valid(),
        r@ == ranked(keys@, keys@.len()),
{
    let r = Ranking::of(keys);
    let n: usize = keys.len();
    proof {
        assert(n == keys@.len());
        lemma_ranked(keys@, keys@.len());
        let all = ranked(keys@, keys@.len());
        assert forall|x: (u64, u64)| r@.contains(x) <==> all.contains(x) by {
            if r@.contains(x) {
                assert(all.contains((keys@[x.1 as int] as u64, x.1)));
            }
            if all.contains(x) {
                let i = choose|i: int| 0 <= i < all.len() && all[i] == x;
                assert(all[i].1 < keys@.len() && all[i].0 == keys@[all[i].1 as int]);
                assert(r@.contains(x));
            }
        }
        crate::rank::law_ranking_is_unique(r@, all);
    }
    r
}

} // verus!
