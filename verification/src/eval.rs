//! Scoring text: which tokens a corpus is scored on, and in which window.
//!
//! Every token is scored with as much left context as the window allows, which is
//! what the stride schedule is for: a naive chunking scores the first token of
//! each block on no context and quietly inflates the result.

use vstd::prelude::*;

verus! {

/// How much of a window is fresh, given the stride schedule.
///
/// Windows overlap so that every token is predicted from a full `ctx` of
/// context wherever the corpus allows it. A token already scored by an earlier
/// window is re-run for context but not counted twice.
pub struct Windows {
    pub total: usize,
    pub ctx: usize,
    pub stride: usize,
}

pub open spec fn smaller(a: int, b: int) -> int {
    if a < b {
        a
    } else {
        b
    }
}

/// The windows from `start` on, where the targets up to `scored` are done: each
/// begins one stride after the one before and reaches as far as the context or
/// the corpus does.
pub open spec fn windows_from(total: int, ctx: int, stride: int, start: int, scored: int) -> Seq<(int, int, int)>
    decreases (if start <= total { total - start } else { 0 }),
{
    if start >= total || stride < 1 {
        Seq::empty()
    } else {
        let len = smaller(ctx, total - start);
        let end = smaller(start + len, total - 1);
        seq![(start, scored - start, len)] + (if end >= total - 1 {
            Seq::empty()
        } else {
            windows_from(total, ctx, stride, start + stride, end)
        })
    }
}

/// The windows as numbers.
pub open spec fn windows_view(v: Seq<(usize, usize, usize)>) -> Seq<(int, int, int)> {
    Seq::new(v.len(), |i: int| (v[i].0 as int, v[i].1 as int, v[i].2 as int))
}

/// Whether a window scores a target: it is predicted from inside the window, by
/// a position that no earlier window counted.
pub open spec fn scores(w: (int, int, int), total: int, target: int) -> bool {
    w.0 + w.1 + 1 <= target <= w.0 + w.2 && target < total
}

impl Windows {
    pub open spec fn width(self) -> int {
        if self.ctx > 2 {
            self.ctx as int
        } else {
            2
        }
    }

    /// A stride past the window would leave a gap no later window covers.
    pub open spec fn hop(self) -> int {
        if self.stride < 1 {
            1
        } else {
            smaller(self.stride as int, self.width())
        }
    }

    pub open spec fn planned(self) -> Seq<(int, int, int)> {
        if self.total < 2 {
            Seq::empty()
        } else {
            windows_from(self.total as int, self.width(), self.hop(), 0, 0)
        }
    }

    /// `(start, first scored offset within the window, window length)` per step.
    ///
    /// Windows are laid out so their target ranges are contiguous and disjoint:
    /// each one picks up exactly where the last left off, and scores as far as
    /// its right edge reaches. The tokens before a window's first target are
    /// still forwarded, they are just not counted again.
    pub fn plan(&self) -> (out: Vec<(usize, usize, usize)>)
        ensures
            windows_view(out@) == self.planned(),
            forall|i: int| 0 <= i < out@.len() ==> (#[trigger] out@[i]).0 + out@[i].2 <= self.total,
    {
        let mut out: Vec<(usize, usize, usize)> = Vec::new();
        if self.total < 2 {
            assert(windows_view(out@) =~= Seq::<(int, int, int)>::empty());
            return out;
        }
        let total: usize = self.total;
        let ctx: usize = if self.ctx > 2 {
            self.ctx
        } else {
            2
        };
        let stride: usize = if self.stride < 1 {
            1
        } else if self.stride < ctx {
            self.stride
        } else {
            ctx
        };
        // Highest absolute target scored so far; 0 means none, since token 0 is
        // predicted by nothing.
        let mut prev_end: usize = 0;
        let mut start: usize = 0;
        assert(windows_view(out@) + self.planned() =~= self.planned());
        loop
            invariant
                total == self.total,
                ctx == self.width(),
                stride == self.hop(),
                2 <= total,
                1 <= stride <= ctx,
                start <= prev_end < total,
                forall|i: int| 0 <= i < out@.len() ==> (#[trigger] out@[i]).0 + out@[i].2 <= total,
                windows_view(out@) + windows_from(
                    total as int,
                    ctx as int,
                    stride as int,
                    start as int,
                    prev_end as int,
                ) == self.planned(),
            decreases total - start,
        {
            let ghost before = windows_view(out@);
            let len: usize = if ctx < total - start {
                ctx
            } else {
                total - start
            };
            // Target `prev_end + 1` is predicted by position `prev_end`.
            let window = (start, prev_end - start, len);
            out.push(window);
            assert(windows_view(out@) =~= before.push((start as int, prev_end - start, len as int)));
            let end: usize = if start + len < total - 1 {
                start + len
            } else {
                total - 1
            };
            if end >= total - 1 {
                assert(windows_view(out@) =~= self.planned());
                return out;
            }
            proof {
                let rest = windows_from(total as int, ctx as int, stride as int, start + stride, end as int);
                assert(windows_view(out@) + rest =~= before + (seq![(start as int, prev_end - start, len as int)]
                    + rest));
            }
            prev_end = end;
            start += stride;
        }
    }

    /// The targets that a window scores, each with its offset in the window.
    pub fn targets(&self, window: (usize, usize, usize)) -> (out: Vec<(usize, usize)>)
        requires
            window.0 + window.2 <= self.total,
        ensures
            forall|i: int|
                0 <= i < out@.len() ==> (#[trigger] out@[i]) == ((window.1 + i) as usize, (window.0 + window.1 + i
                    + 1) as usize) && scores(
                    (window.0 as int, window.1 as int, window.2 as int),
                    self.total as int,
                    out@[i].1 as int,
                ),
            forall|t: int|
                #[trigger] scores((window.0 as int, window.1 as int, window.2 as int), self.total as int, t)
                    ==> t - (window.0 + window.1 + 1) < out@.len(),
    {
        let mut out: Vec<(usize, usize)> = Vec::new();
        let mut offset: usize = window.1;
        while offset < window.2 && window.0 + offset + 1 < self.total
            invariant
                window.1 <= offset,
                window.1 < window.2 ==> offset <= window.2,
                window.1 >= window.2 ==> offset == window.1,
                window.0 + window.2 <= self.total,
                out@.len() == offset - window.1,
                forall|i: int|
                    0 <= i < out@.len() ==> (#[trigger] out@[i]) == ((window.1 + i) as usize, (window.0 + window.1
                        + i + 1) as usize) && scores(
                        (window.0 as int, window.1 as int, window.2 as int),
                        self.total as int,
                        out@[i].1 as int,
                    ),
            decreases window.2 - offset,
        {
            out.push((offset, window.0 + offset + 1));
            offset += 1;
        }
        out
    }
}

/// From where the last window left off, the windows score every target once.
proof fn lemma_cover(total: int, ctx: int, stride: int, start: int, scored: int, target: int)
    requires
        2 <= ctx,
        1 <= stride <= ctx,
        0 <= start <= scored < total,
        scored <= start + ctx,
    ensures
        ({
            let w = windows_from(total, ctx, stride, start, scored);
            &&& scored < target < total ==> exists|i: int|
                0 <= i < w.len() && scores(#[trigger] w[i], total, target)
            &&& forall|i: int| 0 <= i < w.len() && scores(#[trigger] w[i], total, target) ==> scored < target
            &&& forall|i: int, j: int|
                0 <= i < w.len() && 0 <= j < w.len() && scores(#[trigger] w[i], total, target) && scores(
                    #[trigger] w[j],
                    total,
                    target,
                ) ==> i == j
        }),
    decreases total - start,
{
    let w = windows_from(total, ctx, stride, start, scored);
    let len = smaller(ctx, total - start);
    let end = smaller(start + len, total - 1);
    let first = (start, scored - start, len);
    if end >= total - 1 {
        assert(w =~= seq![first]);
        if scored < target < total {
            assert(scores(w[0], total, target));
        }
    } else {
        lemma_cover(total, ctx, stride, start + stride, end, target);
        let rest = windows_from(total, ctx, stride, start + stride, end);
        assert(w =~= seq![first] + rest);
        assert(forall|i: int| 1 <= i < w.len() ==> #[trigger] w[i] == rest[i - 1]);
        if scored < target <= end {
            assert(scores(w[0], total, target));
        } else if end < target < total {
            let k = choose|k: int| 0 <= k < rest.len() && scores(#[trigger] rest[k], total, target);
            assert(scores(w[k + 1], total, target));
        }
        assert forall|i: int, j: int|
            0 <= i < w.len() && 0 <= j < w.len() && scores(#[trigger] w[i], total, target) && scores(
                #[trigger] w[j],
                total,
                target,
            ) implies i == j by {
            if i > 0 {
                assert(scores(rest[i - 1], total, target));
            }
            if j > 0 {
                assert(scores(rest[j - 1], total, target));
            }
        }
        assert forall|i: int| 0 <= i < w.len() && scores(#[trigger] w[i], total, target) implies scored < target by {
            if i > 0 {
                assert(scores(rest[i - 1], total, target));
            }
        }
    }
}

/// Every token but the first is scored, and by one window only.
pub proof fn law_each_target_once(w: Windows, target: int)
    requires
        1 <= target < w.total,
    ensures
        exists|i: int| 0 <= i < w.planned().len() && scores(#[trigger] w.planned()[i], w.total as int, target),
        forall|i: int, j: int|
            0 <= i < w.planned().len() && 0 <= j < w.planned().len() && scores(
                #[trigger] w.planned()[i],
                w.total as int,
                target,
            ) && scores(#[trigger] w.planned()[j], w.total as int, target) ==> i == j,
{
    let p = windows_from(w.total as int, w.width(), w.hop(), 0, 0);
    lemma_cover(w.total as int, w.width(), w.hop(), 0, 0, target);
    let k = choose|k: int| 0 <= k < p.len() && scores(#[trigger] p[k], w.total as int, target);
    assert(scores(w.planned()[k], w.total as int, target));
}

proof fn lemma_context(total: int, ctx: int, stride: int, start: int, scored: int)
    requires
        2 <= total,
        1 <= stride <= ctx,
        0 <= start <= scored < total,
    ensures
        forall|i: int|
            #![trigger windows_from(total, ctx, stride, start, scored)[i]]
            1 <= i < windows_from(total, ctx, stride, start, scored).len() ==> windows_from(total, ctx, stride, start, scored)[i].1
                == ctx - stride,
    decreases total - start,
{
    let w = windows_from(total, ctx, stride, start, scored);
    let len = smaller(ctx, total - start);
    let end = smaller(start + len, total - 1);
    if end < total - 1 {
        let rest = windows_from(total, ctx, stride, start + stride, end);
        lemma_context(total, ctx, stride, start + stride, end);
        assert forall|i: int| #![trigger w[i]] 1 <= i < w.len() implies w[i].1 == ctx - stride by {
            assert(w[i] == rest[i - 1]);
        }
    }
}

/// No token is scored on less than the windows can give it: a target has everything before
/// it as context, or all of a window but a stride.
pub proof fn law_targets_keep_their_context(w: Windows, i: int, target: int)
    requires
        0 <= i < w.planned().len(),
        scores(w.planned()[i], w.total as int, target),
    ensures
        w.planned()[i].0 == 0 || target - w.planned()[i].0 >= w.width() - w.hop() + 1,
{
    lemma_context(w.total as int, w.width(), w.hop(), 0, 0);
    let p = windows_from(w.total as int, w.width(), w.hop(), 0, 0);
    assert(p[0].0 == 0);
}

} // verus!
