//! How attention heads lie in the cache: how wide each is, and which cells hold the key
//! and the value that a head keeps for a position.

use crate::model::Model;
use vstd::prelude::*;

verus! {

/// The heads that keep something for every cached position.
#[derive(Clone, Copy)]
pub struct Heads {
    /// How many of them there are.
    pub count: usize,
    /// The width of a key, and of the query it is held against.
    pub key: usize,
    /// The width of a value.
    pub value: usize,
}

/// The cells of head `h` at position `p`, where every position has `count` heads and every
/// head `width` cells: the first of them, and the one past the last.
pub open spec fn cells(p: int, h: int, count: int, width: int) -> (int, int) {
    (p * (count * width) + h * width, p * (count * width) + h * width + width)
}

/// The cells of a head lie inside what its position takes, and so inside a cache that has
/// room for the position.
pub proof fn law_cells_stay_inside(p: int, h: int, count: int, width: int, ctx: int)
    requires
        0 <= p < ctx,
        0 <= h < count,
        0 <= width,
    ensures
        0 <= p * (count * width) <= cells(p, h, count, width).0,
        cells(p, h, count, width).1 <= (p + 1) * (count * width) <= ctx * (count * width),
{
    let row = count * width;
    assert(0 <= row && 0 <= h * width && h * width + width <= row) by (nonlinear_arith)
        requires
            0 <= h < count,
            0 <= width,
            row == count * width,
    ;
    assert(0 <= p * row && p * row + row == (p + 1) * row && (p + 1) * row <= ctx * row) by (nonlinear_arith)
        requires
            0 <= p < ctx,
            0 <= row,
    ;
}

/// No cell belongs to two heads: the cells of different heads, or of one head at different
/// positions, do not meet.
pub proof fn law_cells_are_apart(p: int, h: int, q: int, g: int, count: int, width: int)
    requires
        0 <= p,
        0 <= q,
        0 <= h < count,
        0 <= g < count,
        0 <= width,
        (p, h) != (q, g),
    ensures
        ({
            let a = cells(p, h, count, width);
            let b = cells(q, g, count, width);
            a.1 <= b.0 || b.1 <= a.0
        }),
{
    if p != q {
        let (early, late) = if p < q { (p, q) } else { (q, p) };
        let (he, hl) = if p < q { (h, g) } else { (g, h) };
        law_cells_stay_inside(early, he, count, width, late);
        law_cells_stay_inside(late, hl, count, width, late + 1);
    } else {
        assert(h < g ==> h * width + width <= g * width) by (nonlinear_arith)
            requires
                0 <= width,
        ;
        assert(g < h ==> g * width + width <= h * width) by (nonlinear_arith)
            requires
                0 <= width,
        ;
    }
}

/// The heads of a position leave no gap: each begins where the one before it ends, and the
/// last ends where the next position begins.
pub proof fn law_cells_follow_each_other(p: int, h: int, count: int, width: int)
    requires
        0 <= p,
        0 <= h < count,
        0 <= width,
    ensures
        cells(p, h, count, width).1 == (if h + 1 < count {
            cells(p, h + 1, count, width).0
        } else {
            cells(p + 1, 0, count, width).0
        }),
{
    assert((h + 1) * width == h * width + width) by (nonlinear_arith);
    assert((p + 1) * (count * width) == p * (count * width) + count * width) by (nonlinear_arith);
}

impl Heads {
    /// The cells that hold a head's key for a position.
    pub fn key_cells(&self, p: usize, h: usize) -> (r: (usize, usize))
        requires
            self.count * self.key <= usize::MAX,
            cells(p as int, h as int, self.count as int, self.key as int).1 <= usize::MAX,
        ensures
            (r.0 as int, r.1 as int) == cells(p as int, h as int, self.count as int, self.key as int),
    {
        span(p, h, self.count, self.key)
    }

    /// The cells that hold a head's value for a position.
    pub fn value_cells(&self, p: usize, h: usize) -> (r: (usize, usize))
        requires
            self.count * self.value <= usize::MAX,
            cells(p as int, h as int, self.count as int, self.value as int).1 <= usize::MAX,
        ensures
            (r.0 as int, r.1 as int) == cells(p as int, h as int, self.count as int, self.value as int),
    {
        span(p, h, self.count, self.value)
    }

    /// How far one norm reaches over a row of heads: over the whole row where the weights
    /// are as many as the row has cells, else over one head at a time.
    pub fn norm_span(&self, weights: usize, row: usize) -> (r: usize)
        ensures
            r == (if weights == row {
                row
            } else {
                self.key
            }),
    {
        if weights == row {
            row
        } else {
            self.key
        }
    }
}

/// The cells of a head at a position.
fn span(p: usize, h: usize, count: usize, width: usize) -> (r: (usize, usize))
    requires
        count * width <= usize::MAX,
        cells(p as int, h as int, count as int, width as int).1 <= usize::MAX,
    ensures
        (r.0 as int, r.1 as int) == cells(p as int, h as int, count as int, width as int),
{
    let row: usize = count * width;
    assert(0 <= p * row && 0 <= h * width) by (nonlinear_arith);
    let from: usize = p * row + h * width;
    (from, from + width)
}

impl Model {
    /// The heads that a cached position keeps. With latent attention every query head has a
    /// key and a value of its own, a key being a plain part and a rotary part; otherwise
    /// there are as many as the model has key-value heads, all of one width.
    pub open spec fn cached_heads(self) -> (int, int, int) {
        match self.spec.mla {
            Some(m) => (self.spec.heads as int, m.qk_nope + m.qk_rope, m.v_head as int),
            None => (self.spec.kv_heads as int, self.spec.head_dim as int, self.spec.head_dim as int),
        }
    }

    /// The heads that a cached position keeps, where the machine holds the width of a key.
    pub fn heads(&self) -> (r: Option<Heads>)
        ensures
            match r {
                Some(h) => (h.count as int, h.key as int, h.value as int) == self.cached_heads(),
                None => self.cached_heads().1 > usize::MAX,
            },
    {
        match &self.spec.mla {
            Some(m) => match m.qk_nope.checked_add(m.qk_rope) {
                Some(key) => Some(Heads { count: self.spec.heads, key, value: m.v_head }),
                None => None,
            },
            None => Some(
                Heads { count: self.spec.kv_heads, key: self.spec.head_dim, value: self.spec.head_dim },
            ),
        }
    }
}

/// A cached position holds its heads and nothing else: the widths kept for it are those of
/// its heads, added up.
pub proof fn law_positions_hold_their_heads(m: Model)
    ensures
        m.widths().0 == m.cached_heads().0 * m.cached_heads().1,
        m.widths().1 == m.cached_heads().0 * m.cached_heads().2,
{
}

} // verus!
