//! Packing: which tensors of a store are written, under which names, in which
//! formats, and where.
//!
//! With a [`Prune`], each MoE layer keeps the experts it names, renumbered into a
//! contiguous range, and the router is narrowed to match. The result is a smaller,
//! self-consistent model rather than a checkpoint with holes in it.

use vstd::prelude::*;
use vstd::string::*;
use crate::index::{before, lemma_chain, lemma_one_way, lemma_total, precedes, Rec};
use crate::json::{array, entries, entry_views, item_views, number, object, put, string, Json, JsonV, NumberV};
use crate::parse::parsed;
use crate::quant::{name_of, writable, Dt};
use crate::store::{
    counts, dims_of, extended, found, inside, law_preamble_reads_back, packed_file, packed_table, preamble_of, recorded, shaped, Found, Layout,
    RefusalV, Store,
};
use crate::text::{
    at, chars_of, contains, decimal, decimal_of, decimal_value, find, first_at, has, is_at, join3, lemma_first_at,
    parse_unsigned, same, substring, unsigned_of,
};

verus! {

/// Whether a text ends in another.
pub open spec fn ends_in(s: Seq<char>, p: Seq<char>) -> bool {
    p.len() <= s.len() && is_at(s, s.len() - p.len(), p)
}

pub fn ends_with(s: &str, p: &str) -> (r: bool)
    ensures
        r == ends_in(s@, p@),
{
    let c = chars_of(s);
    let q = chars_of(p);
    if q.len() > c.len() {
        return false;
    }
    at(c.as_slice(), c.len() - q.len(), p)
}

/// Expert weights: the bulk of a sparse model and the only tensors read on a
/// per-token, per-route basis.
pub open spec fn expert_name(name: Seq<char>) -> bool {
    has(name, ".experts."@)
}

/// Expert weights: the bulk of a sparse model and the only tensors read on a
/// per-token, per-route basis.
pub fn is_expert(name: &str) -> (r: bool)
    ensures
        r == expert_name(name@),
{
    contains(name, ".experts.")
}

/// Big 2-D projections worth quantising, as opposed to gates and norms.
pub open spec fn big_name(name: Seq<char>) -> bool {
    !(has(name, "norm"@) || ends_in(name, ".bias"@) || ends_in(name, "gate.weight"@) || has(name, "e_score"@))
}

/// Big 2-D projections worth quantising, as opposed to gates and norms.
pub fn is_big_weight(name: &str) -> (r: bool)
    ensures
        r == big_name(name@),
{
    !(contains(name, "norm") || ends_with(name, ".bias") || ends_with(name, "gate.weight") || contains(
        name,
        "e_score",
    ))
}

/// Where a run of digits from `i` on ends.
pub open spec fn digits_end(s: Seq<char>, i: int) -> int
    decreases s.len() - i,
{
    if 0 <= i < s.len() && '0' <= s[i] <= '9' {
        digits_end(s, i + 1)
    } else {
        i
    }
}

/// The first number between two dots from `i` on, and where what follows starts.
pub open spec fn layer_from(name: Seq<char>, i: int) -> Option<(nat, int)>
    decreases name.len() - i,
{
    match first_at(name, i, "."@) {
        None => None,
        Some(d) => {
            let start = d + 1;
            let end = digits_end(name, start);
            let l = decimal_value(name.subrange(start, end));
            if end > start && end < name.len() && name[end] == '.' && (l matches Some(n) && n <= usize::MAX) {
                Some((l->0, end + 1))
            } else if d < i || start > name.len() {
                None
            } else {
                layer_from(name, start)
            }
        },
    }
}

/// Which layer a per-layer tensor name belongs to, and where its suffix starts.
pub open spec fn layer_in(name: Seq<char>) -> Option<(nat, int)> {
    layer_from(name, 0)
}

proof fn lemma_digits_end(s: Seq<char>, i: int)
    requires
        0 <= i <= s.len(),
    ensures
        i <= digits_end(s, i) <= s.len(),
    decreases s.len() - i,
{
    if i < s.len() && '0' <= s[i] <= '9' {
        lemma_digits_end(s, i + 1);
    }
}

proof fn lemma_digits(s: Seq<char>, from: int, to: int, k: int)
    requires
        0 <= from <= to <= s.len(),
        to == digits_end(s, from),
        from <= k < to,
    ensures
        '0' <= s[k] <= '9',
    decreases to - from,
{
    lemma_digits_end(s, from);
    if from < k {
        lemma_digits(s, from + 1, to, k);
    }
}

/// Which layer a per-layer tensor name belongs to, and where its suffix starts.
pub fn layer_of(name: &str) -> (r: Option<(usize, usize)>)
    ensures
        match r {
            Some(p) => layer_in(name@) == Some((p.0 as nat, p.1 as int)) && p.1 <= name@.len(),
            None => layer_in(name@) is None,
        },
{
    proof {
        reveal_strlit(".");
    }
    let c = chars_of(name);
    let mut i: usize = 0;
    loop
        invariant
            i <= c@.len(),
            c@ == name@,
            "."@.len() == 1,
            layer_in(name@) == layer_from(name@, i as int),
        decreases c@.len() - i,
    {
        let d: usize = match find(c.as_slice(), i, ".") {
            None => return None,
            Some(d) => d,
        };
        proof {
            lemma_first_at(name@, i as int, "."@);
        }
        let start: usize = d + 1;
        let mut end: usize = start;
        while end < c.len() && '0' <= c[end] && c[end] <= '9'
            invariant
                start <= end <= c@.len(),
                c@ == name@,
                digits_end(name@, start as int) == digits_end(name@, end as int),
            decreases c@.len() - end,
        {
            end += 1;
        }
        if end > start && end < c.len() && c[end] == '.' {
            let digits = substring(c.as_slice(), start, end);
            proof {
                // A run of digits has no plus sign to skip.
                lemma_digits(name@, start as int, end as int, start as int);
                assert(digits@[0] == name@[start as int]);
            }
            if let Some(l) = parse_unsigned(digits.as_str(), usize::MAX as u64) {
                return Some((l as usize, end + 1));
            }
        }
        i = start;
    }
}

/// Experts worth spending more bits on, and how many.
///
/// Built from a trace: the experts a workload actually leans on. Applies only to
/// checkpoints that store experts as separate tensors; a fused
/// `[experts, rows, cols]` stack is one tensor with one format, and keeps the
/// blanket rate.
#[derive(Debug)]
pub struct Hot {
    /// `(layer, expert)` pairs to store at `dt`.
    pub experts: Vec<(u32, u32)>,
    pub dt: Dt,
}

/// The texts that a per-expert tensor's suffix starts with.
pub open spec fn marker(k: int) -> Seq<char> {
    if k == 0 {
        "mlp.experts."@
    } else {
        "block_sparse_moe.experts."@
    }
}

/// What follows the marker that a suffix starts with, if it starts with one.
pub open spec fn after_marker(suffix: Seq<char>) -> Option<(int, Seq<char>)> {
    if is_at(suffix, 0, marker(0)) {
        Some((0, suffix.subrange(marker(0).len() as int, suffix.len() as int)))
    } else if is_at(suffix, 0, marker(1)) {
        Some((1, suffix.subrange(marker(1).len() as int, suffix.len() as int)))
    } else {
        None
    }
}

/// A text up to its first dot, and what follows the dot.
pub open spec fn cut(s: Seq<char>) -> (Seq<char>, Seq<char>) {
    match first_at(s, 0, "."@) {
        Some(i) => (s.subrange(0, i), s.subrange(i + 1, s.len() as int)),
        None => (s, Seq::empty()),
    }
}

/// The suffix of a per-layer name.
pub open spec fn suffix_in(name: Seq<char>, from: int) -> Seq<char> {
    name.subrange(from, name.len() as int)
}

impl Hot {
    /// The finer format of a tensor, where its expert is hot.
    pub open spec fn format_in(self, name: Seq<char>) -> Option<Dt> {
        match layer_in(name) {
            None => None,
            Some((layer, from)) => match after_marker(suffix_in(name, from)) {
                None => None,
                Some((_, rest)) => match unsigned_of(cut(rest).0, u32::MAX as nat) {
                    None => None,
                    Some(e) => if self.experts@.contains((layer as u32, e as u32)) {
                        Some(self.dt)
                    } else {
                        None
                    },
                },
            },
        }
    }
}

fn split_marker(suffix: &str) -> (r: Option<(usize, String)>)
    ensures
        match r {
            Some(p) => after_marker(suffix@) == Some((p.0 as int, p.1@)) && p.0 < 2,
            None => after_marker(suffix@) is None,
        },
{
    let c = chars_of(suffix);
    proof {
        reveal_strlit("mlp.experts.");
        reveal_strlit("block_sparse_moe.experts.");
    }
    if at(c.as_slice(), 0, "mlp.experts.") {
        Some((0, substring(c.as_slice(), 12, c.len())))
    } else if at(c.as_slice(), 0, "block_sparse_moe.experts.") {
        Some((1, substring(c.as_slice(), 25, c.len())))
    } else {
        None
    }
}

fn split_dot(s: &str) -> (r: (String, String))
    ensures
        (r.0@, r.1@) == cut(s@),
{
    let c = chars_of(s);
    proof {
        reveal_strlit(".");
    }
    match find(c.as_slice(), 0, ".") {
        Some(i) => (substring(c.as_slice(), 0, i), substring(c.as_slice(), i + 1, c.len())),
        None => (s.to_owned(), String::new()),
    }
}

impl Hot {
    /// The finer format of a tensor, where its expert is hot.
    #[verifier::loop_isolation(false)]
    pub fn format_for(&self, name: &str) -> (r: Option<Dt>)
        ensures
            r == self.format_in(name@),
    {
        let (layer, from): (usize, usize) = match layer_of(name) {
            None => return None,
            Some(p) => p,
        };
        let c = chars_of(name);
        let suffix = substring(c.as_slice(), from, c.len());
        let rest: String = match split_marker(suffix.as_str()) {
            None => return None,
            Some(p) => p.1,
        };
        let num = split_dot(rest.as_str()).0;
        let e: u32 = match parse_unsigned(num.as_str(), u32::MAX as u64) {
            None => return None,
            Some(e) => e as u32,
        };
        let l: u32 = #[verifier::truncate]
        (layer as u32);
        let mut i: usize = 0;
        while i < self.experts.len()
            invariant
                i <= self.experts@.len(),
                forall|k: int| 0 <= k < i ==> self.experts@[k] != (l, e),
            decreases self.experts@.len() - i,
        {
            let (a, b): (u32, u32) = self.experts[i];
            if a == l && b == e {
                assert(self.experts@.contains((l, e)));
                return Some(self.dt);
            }
            i += 1;
        }
        assert(!self.experts@.contains((l, e)));
        None
    }
}

/// Which experts each layer keeps.
///
/// The count has to be uniform across layers because a config declares one expert
/// count, but the *sets* differ per layer, which is where the specialisation lives.
#[derive(Debug)]
pub struct Prune {
    /// `keep[layer]` is the experts to retain, ascending. Their position here is
    /// the index they are renumbered to.
    pub keep: Vec<Vec<u32>>,
    /// Experts per token in the pruned model, which cannot exceed what is kept.
    pub top_k: usize,
}

/// What pruning does to one tensor.
#[derive(Debug)]
pub enum Selection {
    Drop,
    Keep(Kept),
}

/// What is written of one tensor: its new name, which rows of the flattened source
/// and which columns survive, and how many slabs there are then. `None` means all,
/// or as before.
#[derive(Debug)]
pub struct Kept {
    pub name: String,
    pub rows: Option<Vec<usize>>,
    pub cols: Option<Vec<usize>>,
    pub slabs: Option<usize>,
}

/// What a [`Selection`] holds.
pub enum SelectionV {
    Drop,
    Keep(KeptV),
}

/// What a [`Kept`] holds.
#[verifier::ext_equal]
pub struct KeptV {
    pub name: Seq<char>,
    pub rows: Option<Seq<usize>>,
    pub cols: Option<Seq<usize>>,
    pub slabs: Option<usize>,
}

/// What an optional list holds.
pub open spec fn list_of(v: Option<Vec<usize>>) -> Option<Seq<usize>> {
    match v {
        Some(x) => Some(x@),
        None => None,
    }
}

impl View for Kept {
    type V = KeptV;

    open spec fn view(&self) -> KeptV {
        KeptV { name: self.name@, rows: list_of(self.rows), cols: list_of(self.cols), slabs: self.slabs }
    }
}

impl View for Selection {
    type V = SelectionV;

    open spec fn view(&self) -> SelectionV {
        match *self {
            Selection::Drop => SelectionV::Drop,
            Selection::Keep(k) => SelectionV::Keep(k@),
        }
    }
}

/// A tensor written as it is.
pub open spec fn untouched(name: Seq<char>) -> KeptV {
    KeptV { name, rows: None, cols: None, slabs: None }
}

/// Expert numbers as positions.
pub open spec fn widened(keep: Seq<u32>) -> Seq<usize> {
    Seq::new(keep.len(), |i: int| keep[i] as usize)
}

/// The rows of the kept slabs of a stack, in the new order.
pub open spec fn slab_rows(keep: Seq<u32>, rows: usize) -> Seq<usize> {
    Seq::new(
        keep.len() * rows as nat,
        |i: int| (keep[i / rows as int] as int * rows as int + i % rows as int) as usize,
    )
}

/// The first expert of a layer that is not below `n`.
pub open spec fn beyond(keep: Seq<u32>, n: int, from: int) -> Option<u32>
    decreases keep.len() - from,
{
    if from < 0 || from >= keep.len() {
        None
    } else if keep[from] >= n {
        Some(keep[from])
    } else {
        beyond(keep, n, from + 1)
    }
}

/// Where an expert stands among those kept.
pub open spec fn place_in(keep: Seq<u32>, e: u32, from: int) -> Option<int>
    decreases keep.len() - from,
{
    if from < 0 || from >= keep.len() {
        None
    } else if keep[from] == e {
        Some(from)
    } else {
        place_in(keep, e, from + 1)
    }
}

/// What becomes of a tensor of a pruned layer. A kept expert that the tensor does
/// not have is handed back.
pub open spec fn pruned(keep: Seq<u32>, name: Seq<char>, from: int, r: Rec) -> Result<SelectionV, u32> {
    let suffix = suffix_in(name, from);
    if ends_in(suffix, "mlp.gate.weight"@) || ends_in(suffix, "block_sparse_moe.gate.weight"@) {
        // The router: one row per expert, so narrow it to the kept rows in the same
        // order the experts were renumbered.
        match beyond(keep, r.slabs * r.rows, 0) {
            Some(e) => Err(e),
            None => Ok(SelectionV::Keep(KeptV { rows: Some(widened(keep)), ..untouched(name) })),
        }
    } else if has(suffix, "e_score_correction_bias"@) {
        // The per-expert bias of the router is a single row indexed by expert, so the
        // selection is over columns instead.
        match beyond(keep, r.cols as int, 0) {
            Some(e) => Err(e),
            None => Ok(SelectionV::Keep(KeptV { cols: Some(widened(keep)), ..untouched(name) })),
        }
    } else if is_at(suffix, 0, "mlp.experts."@) && r.slabs > 1 {
        // A fused stack: keep whole slabs, in the new order.
        match beyond(keep, r.slabs as int, 0) {
            Some(e) => Err(e),
            None => Ok(
                SelectionV::Keep(
                    KeptV {
                        rows: Some(slab_rows(keep, r.rows)),
                        slabs: Some(keep.len() as usize),
                        ..untouched(name)
                    },
                ),
            ),
        }
    } else {
        Ok(renumbered(keep, name, from))
    }
}

/// What becomes of a per-expert tensor: dropped, or renumbered.
pub open spec fn renumbered(keep: Seq<u32>, name: Seq<char>, from: int) -> SelectionV {
    match after_marker(suffix_in(name, from)) {
        None => SelectionV::Keep(untouched(name)),
        Some((k, rest)) => {
            let (num, tail) = cut(rest);
            match unsigned_of(num, u32::MAX as nat) {
                None => SelectionV::Keep(untouched(name)),
                Some(e) => match place_in(keep, e as u32, 0) {
                    None => SelectionV::Drop,
                    Some(new) => SelectionV::Keep(
                        untouched(name.subrange(0, from) + marker(k) + (decimal_of(new as nat) + "."@ + tail)),
                    ),
                },
            }
        },
    }
}

impl Prune {
    /// The experts that a layer keeps, where it is pruned.
    pub open spec fn kept_in(self, layer: nat) -> Option<Seq<u32>> {
        if layer < self.keep@.len() && self.keep@[layer as int]@.len() > 0 {
            Some(self.keep@[layer as int]@)
        } else {
            None
        }
    }

    /// What becomes of a tensor.
    pub open spec fn selected(self, name: Seq<char>, r: Rec) -> Result<SelectionV, u32> {
        match layer_in(name) {
            None => Ok(SelectionV::Keep(untouched(name))),
            Some((layer, from)) => match self.kept_in(layer) {
                None => Ok(SelectionV::Keep(untouched(name))),
                Some(keep) => pruned(keep, name, from, r),
            },
        }
    }

    /// How many experts the widest of the first `n` layers keeps.
    pub open spec fn widest(self, n: nat) -> int
        decreases n,
    {
        if n == 0 || n > self.keep@.len() {
            0
        } else {
            let w = self.widest((n - 1) as nat);
            let k = self.keep@[n - 1]@.len() as int;
            if k > w {
                k
            } else {
                w
            }
        }
    }

    /// How many experts each layer will have. Uniform by construction.
    pub fn width(&self) -> (r: usize)
        ensures
            r == self.widest(self.keep@.len()),
    {
        let mut w: usize = 0;
        let mut i: usize = 0;
        while i < self.keep.len()
            invariant
                i <= self.keep@.len(),
                w == self.widest(i as nat),
            decreases self.keep@.len() - i,
        {
            let k: usize = self.keep[i].len();
            if k > w {
                w = k;
            }
            i += 1;
        }
        w
    }

    fn kept(&self, layer: usize) -> (r: Option<&Vec<u32>>)
        ensures
            match r {
                Some(k) => self.kept_in(layer as nat) == Some(k@),
                None => self.kept_in(layer as nat) is None,
            },
    {
        if layer < self.keep.len() && self.keep[layer].len() > 0 {
            Some(&self.keep[layer])
        } else {
            None
        }
    }

    /// What becomes of a tensor. A kept expert that the tensor does not have is
    /// handed back.
    pub fn plan(&self, name: &str, r: Rec) -> (s: Result<Selection, u32>)
        requires
            r.slabs * r.rows <= usize::MAX,
        ensures
            match s {
                Ok(x) => self.selected(name@, r) == Ok::<SelectionV, u32>(x@),
                Err(e) => self.selected(name@, r) == Err::<SelectionV, u32>(e),
            },
    {
        let (layer, from): (usize, usize) = match layer_of(name) {
            None => return Ok(Selection::Keep(keep_all(name))),
            Some(p) => p,
        };
        let keep: &Vec<u32> = match self.kept(layer) {
            None => return Ok(Selection::Keep(keep_all(name))),
            Some(k) => k,
        };
        let c = chars_of(name);
        let suffix = substring(c.as_slice(), from, c.len());
        if ends_with(suffix.as_str(), "mlp.gate.weight") || ends_with(suffix.as_str(), "block_sparse_moe.gate.weight") {
            return match first_beyond(keep, r.slabs * r.rows) {
                Some(e) => Err(e),
                None => Ok(
                    Selection::Keep(
                        Kept { name: name.to_owned(), rows: Some(widen(keep)), cols: None, slabs: None },
                    ),
                ),
            };
        }
        if contains(suffix.as_str(), "e_score_correction_bias") {
            return match first_beyond(keep, r.cols) {
                Some(e) => Err(e),
                None => Ok(
                    Selection::Keep(
                        Kept { name: name.to_owned(), rows: None, cols: Some(widen(keep)), slabs: None },
                    ),
                ),
            };
        }
        let chars = chars_of(suffix.as_str());
        if at(chars.as_slice(), 0, "mlp.experts.") && r.slabs > 1 {
            return match first_beyond(keep, r.slabs) {
                Some(e) => Err(e),
                None => Ok(
                    Selection::Keep(
                        Kept {
                            name: name.to_owned(),
                            rows: Some(stack_rows(keep, r.rows, r.slabs)),
                            cols: None,
                            slabs: Some(keep.len()),
                        },
                    ),
                ),
            };
        }
        Ok(renumber(keep, name, from))
    }
}

fn keep_all(name: &str) -> (r: Kept)
    ensures
        r@ == untouched(name@),
{
    Kept { name: name.to_owned(), rows: None, cols: None, slabs: None }
}

/// Where none is beyond, every expert is below.
proof fn lemma_all_below(keep: Seq<u32>, n: int, from: int)
    requires
        from >= 0,
        beyond(keep, n, from) is None,
    ensures
        forall|k: int| from <= k < keep.len() ==> keep[k] < n,
    decreases keep.len() - from,
{
    if from < keep.len() {
        lemma_all_below(keep, n, from + 1);
    }
}

fn first_beyond(keep: &Vec<u32>, n: usize) -> (r: Option<u32>)
    ensures
        r == beyond(keep@, n as int, 0),
{
    let mut i: usize = 0;
    while i < keep.len()
        invariant
            i <= keep@.len(),
            beyond(keep@, n as int, 0) == beyond(keep@, n as int, i as int),
        decreases keep@.len() - i,
    {
        if keep[i] as usize >= n {
            return Some(keep[i]);
        }
        i += 1;
    }
    None
}

fn widen(keep: &Vec<u32>) -> (r: Vec<usize>)
    ensures
        r@ == widened(keep@),
{
    let mut out: Vec<usize> = Vec::new();
    let mut i: usize = 0;
    while i < keep.len()
        invariant
            i <= keep@.len(),
            out@.len() == i,
            forall|k: int| 0 <= k < i ==> out@[k] == keep@[k] as usize,
        decreases keep@.len() - i,
    {
        out.push(keep[i] as usize);
        i += 1;
    }
    assert(out@ =~= widened(keep@));
    out
}

#[verifier::loop_isolation(false)]
fn stack_rows(keep: &Vec<u32>, rows: usize, slabs: usize) -> (r: Vec<usize>)
    requires
        beyond(keep@, slabs as int, 0) is None,
        slabs * rows <= usize::MAX,
    ensures
        r@ == slab_rows(keep@, rows),
{
    proof {
        lemma_all_below(keep@, slabs as int, 0);
    }
    let mut out: Vec<usize> = Vec::new();
    let mut i: usize = 0;
    while i < keep.len()
        invariant
            i <= keep@.len(),
            out@.len() == i * rows,
            forall|k: int| 0 <= k < out@.len() ==> #[trigger] out@[k] == slab_rows(keep@, rows)[k],
        decreases keep@.len() - i,
    {
        let e: usize = keep[i] as usize;
        let mut row: usize = 0;
        assert(i * rows <= keep@.len() * rows) by (nonlinear_arith)
            requires
                i <= keep@.len(),
                rows >= 0,
        ;
        while row < rows
            invariant
                row <= rows,
                out@.len() == i * rows + row,
                forall|k: int| 0 <= k < out@.len() ==> #[trigger] out@[k] == slab_rows(keep@, rows)[k],
            decreases rows - row,
        {
            let ghost k = i * rows + row;
            proof {
                assert(keep@[i as int] < slabs);
                assert(0 <= e * rows && e * rows + row < slabs * rows) by (nonlinear_arith)
                    requires
                        0 <= e < slabs,
                        0 <= row < rows,
                ;
                assert(k / rows as int == i && k % rows as int == row) by (nonlinear_arith)
                    requires
                        k == i * rows + row,
                        0 <= row < rows,
                ;
                assert(k < keep@.len() * rows) by (nonlinear_arith)
                    requires
                        k == i * rows + row,
                        0 <= row < rows,
                        i < keep@.len(),
                ;
            }
            out.push(e * rows + row);
            row += 1;
        }
        assert((i + 1) * rows == i * rows + rows) by (nonlinear_arith);
        i += 1;
    }
    assert(out@ =~= slab_rows(keep@, rows));
    out
}

fn position(keep: &Vec<u32>, e: u32) -> (r: Option<usize>)
    ensures
        match r {
            Some(i) => place_in(keep@, e, 0) == Some(i as int) && i < keep@.len(),
            None => place_in(keep@, e, 0) is None,
        },
{
    let mut i: usize = 0;
    while i < keep.len()
        invariant
            i <= keep@.len(),
            place_in(keep@, e, 0) == place_in(keep@, e, i as int),
        decreases keep@.len() - i,
    {
        if keep[i] == e {
            return Some(i);
        }
        i += 1;
    }
    None
}

fn renumber(keep: &Vec<u32>, name: &str, from: usize) -> (r: Selection)
    requires
        from <= name@.len(),
    ensures
        r@ == renumbered(keep@, name@, from as int),
{
    let c = chars_of(name);
    let suffix = substring(c.as_slice(), from, c.len());
    let (k, rest): (usize, String) = match split_marker(suffix.as_str()) {
        None => return Selection::Keep(keep_all(name)),
        Some(p) => p,
    };
    let (num, tail): (String, String) = split_dot(rest.as_str());
    let e: u32 = match parse_unsigned(num.as_str(), u32::MAX as u64) {
        None => return Selection::Keep(keep_all(name)),
        Some(e) => e as u32,
    };
    match position(keep, e) {
        None => Selection::Drop,
        Some(new) => {
            let head = substring(c.as_slice(), 0, from);
            let word: &str = if k == 0 {
                "mlp.experts."
            } else {
                "block_sparse_moe.experts."
            };
            let end = join3(decimal(new as u64).as_str(), ".", tail.as_str());
            let full = join3(head.as_str(), word, end.as_str());
            Selection::Keep(keep_all(full.as_str()))
        },
    }
}

/// Whether a key of a config states how many experts a layer has.
pub open spec fn counts_experts(key: Seq<char>) -> bool {
    key == "num_experts"@ || key == "n_routed_experts"@ || key == "num_local_experts"@ || key == "moe_num_experts"@
}

/// Whether a key of a config states how many experts a token is given.
pub open spec fn counts_chosen(key: Seq<char>) -> bool {
    key == "num_experts_per_tok"@ || key == "moe_top_k"@
}

/// Whether a key of a config is about groups of experts.
pub open spec fn counts_groups(key: Seq<char>) -> bool {
    key == "n_group"@ || key == "topk_group"@
}

/// The value of a config's key after pruning. Group-limited routing cannot survive
/// renumbering: the groups were contiguous ranges of the original experts, and are
/// no longer.
pub open spec fn rewritten(key: Seq<char>, v: JsonV, width: int, top_k: int) -> JsonV {
    if counts_experts(key) {
        JsonV::Num(NumberV::Pos(width as u64))
    } else if counts_chosen(key) {
        JsonV::Num(
            NumberV::Pos(
                (if top_k < width {
                    top_k
                } else {
                    width
                }) as u64,
            ),
        )
    } else if counts_groups(key) {
        JsonV::Num(NumberV::Pos(1))
    } else {
        v
    }
}

/// A config brought into line with the tensors that were written.
pub open spec fn rewritten_all(config: JsonV, width: int, top_k: int) -> JsonV {
    match config {
        JsonV::Obj(m) => if width == 0 {
            config
        } else {
            JsonV::Obj(Seq::new(m.len(), |i: int| (m[i].0, rewritten(m[i].0, m[i].1, width, top_k))))
        },
        _ => config,
    }
}

impl Prune {
    /// Bring the config into line with the tensors that were written.
    #[verifier::loop_isolation(false)]
    pub fn rewrite(&self, config: &Json) -> (r: Json)
        ensures
            r@ == rewritten_all(config@, self.widest(self.keep@.len()), self.top_k as int),
    {
        let width: usize = self.width();
        if width == 0 {
            return config.copy();
        }
        let top: usize = if self.top_k < width {
            self.top_k
        } else {
            width
        };
        match config {
            Json::Obj(_) => {},
            _ => return config.copy(),
        }
        let n: usize = config.size();
        let ghost m = entries(config@);
        let mut out: Vec<(String, Json)> = Vec::new();
        let mut i: usize = 0;
        while i < n
            invariant
                i <= n,
                out@.len() == i,
                forall|k: int|
                    0 <= k < i ==> (#[trigger] out@[k]).0@ == m[k].0 && out@[k].1@ == rewritten(
                        m[k].0,
                        m[k].1,
                        width as int,
                        self.top_k as int,
                    ),
            decreases n - i,
        {
            let key: &str = config.key(i);
            let v: Json = if same(key, "num_experts") || same(key, "n_routed_experts") || same(key, "num_local_experts")
                || same(key, "moe_num_experts") {
                number(width as u64)
            } else if same(key, "num_experts_per_tok") || same(key, "moe_top_k") {
                number(top as u64)
            } else if same(key, "n_group") || same(key, "topk_group") {
                number(1)
            } else {
                config.value(i).copy()
            };
            out.push((key.to_owned(), v));
            i += 1;
        }
        let r: Json = object(out);
        assert(r@->Obj_0 =~= rewritten_all(config@, width as int, self.top_k as int)->Obj_0);
        r
    }
}

/// One tensor's write plan: where it comes from, what it is called, which rows and
/// columns of it survive, and where it lies in the payload.
#[derive(Debug)]
pub struct Item {
    pub dest: String,
    pub src: String,
    pub dt: Dt,
    /// Rows of the flattened source to write, in order. `None` means all.
    pub rows: Option<Vec<usize>>,
    /// Columns to keep. `None` means all.
    pub cols: Option<Vec<usize>>,
    /// Two dimensions, or three with the slabs first.
    pub shape: Vec<usize>,
    pub off: u64,
    pub len: u64,
}

/// What an [`Item`] holds.
#[verifier::ext_equal]
pub struct ItemV {
    pub dest: Seq<char>,
    pub src: Seq<char>,
    pub dt: Dt,
    pub rows: Option<Seq<usize>>,
    pub cols: Option<Seq<usize>>,
    pub shape: Seq<usize>,
    pub off: u64,
    pub len: u64,
}

impl View for Item {
    type V = ItemV;

    open spec fn view(&self) -> ItemV {
        ItemV {
            dest: self.dest@,
            src: self.src@,
            dt: self.dt,
            rows: list_of(self.rows),
            cols: list_of(self.cols),
            shape: self.shape@,
            off: self.off,
            len: self.len,
        }
    }
}

/// Why a store cannot be packed as asked.
#[derive(Debug)]
pub enum PackFault {
    /// A tensor without an expert that is to be kept.
    Missing(String, u32),
    /// A tensor beyond what a file can hold.
    TooLarge(String),
}

/// What a [`PackFault`] holds.
pub enum PackFaultV {
    Missing(Seq<char>, u32),
    TooLarge(Seq<char>),
}

impl View for PackFault {
    type V = PackFaultV;

    open spec fn view(&self) -> PackFaultV {
        match *self {
            PackFault::Missing(n, e) => PackFaultV::Missing(n@, e),
            PackFault::TooLarge(n) => PackFaultV::TooLarge(n@),
        }
    }
}

/// What to pack, and how.
pub struct Order<'a> {
    /// The format of big weights that are no experts.
    pub weight_dt: Dt,
    /// The format of experts.
    pub expert_dt: Dt,
    pub prune: Option<&'a Prune>,
    pub hot: Option<&'a Hot>,
}

impl<'a> Order<'a> {
    /// Every format asked for can be written.
    pub open spec fn valid(self) -> bool {
        writable(self.weight_dt) && writable(self.expert_dt) && (self.hot matches Some(h) ==> writable(h.dt))
    }

    /// The format asked for: one-row tensors, norms, biases and router gates stay
    /// f32, where they cost nothing and quantisation noise would be amplified. A hot
    /// expert overrides the blanket expert format.
    pub open spec fn target(self, name: Seq<char>, r: Rec) -> Dt {
        if r.rows == 1 || !big_name(name) {
            Dt::F32
        } else if expert_name(name) {
            match self.hot {
                Some(h) => match h.format_in(name) {
                    Some(dt) => dt,
                    None => self.expert_dt,
                },
                None => self.expert_dt,
            }
        } else {
            self.weight_dt
        }
    }

    /// The format written: what was asked for, where both the source's width and
    /// what is left of it are whole blocks.
    pub open spec fn format(self, name: Seq<char>, r: Rec, width: int) -> Dt {
        let t = self.target(name, r);
        if t.divides(r.cols as int) && t.divides(width) {
            t
        } else {
            Dt::F32
        }
    }

    /// What pruning leaves of a tensor.
    pub open spec fn selection(self, name: Seq<char>, r: Rec) -> Result<SelectionV, u32> {
        match self.prune {
            None => Ok(SelectionV::Keep(untouched(name))),
            Some(p) => p.selected(name, r),
        }
    }
}

/// Tensors that inference never reads.
pub open spec fn unread(name: Seq<char>) -> bool {
    has(name, "rotary_emb"@) || ends_in(name, ".inv_freq"@)
}

/// How many columns are written.
pub open spec fn width_of(k: KeptV, r: Rec) -> int {
    match k.cols {
        Some(c) => c.len() as int,
        None => r.cols as int,
    }
}

/// How many rows are written.
pub open spec fn height_of(k: KeptV, r: Rec) -> int {
    match k.rows {
        Some(v) => v.len() as int,
        None => r.slabs * r.rows,
    }
}

/// The dimensions written. A fused expert stack keeps its three dimensions, with a
/// narrower leading one.
pub open spec fn dims_written(k: KeptV, r: Rec) -> Seq<usize> {
    let h = height_of(k, r);
    let w = width_of(k, r) as usize;
    match k.slabs {
        Some(slabs) => seq![
            slabs,
            (h / (if slabs == 0 {
                1
            } else {
                slabs as int
            })) as usize,
            w,
        ],
        None => if r.slabs > 1 {
            seq![r.slabs, r.rows, w]
        } else {
            seq![h as usize, w]
        },
    }
}

/// The plan of one tensor, to lie at `off`: none where it is not written.
pub open spec fn item_of(o: Order, name: Seq<char>, r: Rec, off: int) -> Result<Option<ItemV>, PackFaultV> {
    if unread(name) {
        Ok(None)
    } else if r.slabs * r.rows > usize::MAX {
        Err(PackFaultV::TooLarge(name))
    } else {
        match o.selection(name, r) {
            Err(e) => Err(PackFaultV::Missing(name, e)),
            Ok(SelectionV::Drop) => Ok(None),
            Ok(SelectionV::Keep(k)) => {
                let dt = o.format(name, r, width_of(k, r));
                let row = dt.row_size(width_of(k, r));
                let len = height_of(k, r) * row;
                if row > usize::MAX || off + len > u64::MAX {
                    Err(PackFaultV::TooLarge(name))
                } else {
                    Ok(
                        Some(
                            ItemV {
                                dest: k.name,
                                src: name,
                                dt,
                                rows: k.rows,
                                cols: k.cols,
                                shape: dims_written(k, r),
                                off: off as u64,
                                len: len as u64,
                            },
                        ),
                    )
                }
            },
        }
    }
}

/// Where the payload of a plan ends.
pub open spec fn end_of(v: Seq<ItemV>) -> int {
    if v.len() == 0 {
        0
    } else {
        v.last().off + v.last().len
    }
}

/// The plan of the first `n` tensors, one after another.
pub open spec fn planned(o: Order, t: Seq<(Seq<char>, Rec)>, n: nat) -> Result<Seq<ItemV>, PackFaultV>
    decreases n,
{
    if n == 0 || n > t.len() {
        Ok(Seq::empty())
    } else {
        match planned(o, t, (n - 1) as nat) {
            Err(e) => Err(e),
            Ok(v) => match item_of(o, t[n - 1].0, t[n - 1].1, end_of(v)) {
                Err(e) => Err(e),
                Ok(None) => Ok(v),
                Ok(Some(i)) => Ok(v.push(i)),
            },
        }
    }
}

/// What plans hold.
pub open spec fn items_of(v: Seq<Item>) -> Seq<ItemV> {
    Seq::new(v.len(), |i: int| v[i]@)
}

proof fn lemma_plan_refused(o: Order, t: Seq<(Seq<char>, Rec)>, k: nat, n: nat)
    requires
        k <= n <= t.len(),
        planned(o, t, k) is Err,
    ensures
        planned(o, t, n) == planned(o, t, k),
    decreases n,
{
    if k < n {
        lemma_plan_refused(o, t, k, (n - 1) as nat);
    }
}

impl<'a> Order<'a> {
    fn choose_format(&self, name: &str, r: Rec, width: usize) -> (dt: Dt)
        ensures
            dt == self.format(name@, r, width as int),
    {
        let target: Dt = if r.rows == 1 || !is_big_weight(name) {
            Dt::F32
        } else if is_expert(name) {
            match self.hot {
                Some(h) => match h.format_for(name) {
                    Some(dt) => dt,
                    None => self.expert_dt,
                },
                None => self.expert_dt,
            }
        } else {
            self.weight_dt
        };
        if target.fits(r.cols) && target.fits(width) {
            target
        } else {
            Dt::F32
        }
    }

    fn item(&self, name: &str, r: Rec, off: u64) -> (x: Result<Option<Item>, PackFault>)
        ensures
            match x {
                Ok(None) => item_of(*self, name@, r, off as int) == Ok::<Option<ItemV>, PackFaultV>(None),
                Ok(Some(i)) => item_of(*self, name@, r, off as int) == Ok::<Option<ItemV>, PackFaultV>(Some(i@)),
                Err(e) => item_of(*self, name@, r, off as int) == Err::<Option<ItemV>, PackFaultV>(e@),
            },
    {
        if contains(name, "rotary_emb") || ends_with(name, ".inv_freq") {
            return Ok(None);
        }
        let height: usize = match r.slabs.checked_mul(r.rows) {
            None => return Err(PackFault::TooLarge(name.to_owned())),
            Some(h) => h,
        };
        let kept: Kept = match self.prune {
            None => keep_all(name),
            Some(p) => match p.plan(name, r) {
                Err(e) => return Err(PackFault::Missing(name.to_owned(), e)),
                Ok(Selection::Drop) => return Ok(None),
                Ok(Selection::Keep(k)) => k,
            },
        };
        let cols: usize = match &kept.cols {
            Some(c) => c.len(),
            None => r.cols,
        };
        let rows: usize = match &kept.rows {
            Some(v) => v.len(),
            None => height,
        };
        let dt: Dt = self.choose_format(name, r, cols);
        let row: usize = match dt.checked_row_bytes(cols) {
            None => return Err(PackFault::TooLarge(name.to_owned())),
            Some(w) => w,
        };
        proof {
            assert(rows * row >= 0) by (nonlinear_arith)
                requires
                    rows >= 0,
                    row >= 0,
            ;
        }
        let len: u64 = match (rows as u64).checked_mul(row as u64) {
            None => return Err(PackFault::TooLarge(name.to_owned())),
            Some(l) => l,
        };
        if off.checked_add(len).is_none() {
            return Err(PackFault::TooLarge(name.to_owned()));
        }
        let shape: Vec<usize> = match kept.slabs {
            Some(slabs) => {
                let each: usize = rows / (if slabs == 0 {
                    1
                } else {
                    slabs
                });
                vec![slabs, each, cols]
            },
            None => if r.slabs > 1 {
                vec![r.slabs, r.rows, cols]
            } else {
                vec![rows, cols]
            },
        };
        assert(shape@ =~= dims_written(kept@, r));
        Ok(
            Some(
                Item {
                    dest: kept.name,
                    src: name.to_owned(),
                    dt,
                    rows: kept.rows,
                    cols: kept.cols,
                    shape,
                    off,
                    len,
                },
            ),
        )
    }
}

impl Store {
    /// The write plan of a packed file.
    #[verifier::loop_isolation(false)]
    pub fn pack_with(&self, o: &Order) -> (r: Result<Vec<Item>, PackFault>)
        ensures
            match r {
                Ok(v) => planned(*o, self.listed(), self.listed().len()) == Ok::<Seq<ItemV>, PackFaultV>(items_of(v@)),
                Err(e) => planned(*o, self.listed(), self.listed().len()) == Err::<Seq<ItemV>, PackFaultV>(e@),
            },
    {
        let ghost t = self.listed();
        let mut out: Vec<Item> = Vec::new();
        let mut off: u64 = 0;
        let mut i: usize = 0;
        assert(items_of(out@) =~= Seq::empty());
        while i < self.len()
            invariant
                i <= t.len(),
                planned(*o, t, i as nat) == Ok::<Seq<ItemV>, PackFaultV>(items_of(out@)),
                off == end_of(items_of(out@)),
            decreases t.len() - i,
        {
            let name: &str = self.name_at(i);
            let r: Rec = self.rec_at(i);
            match o.item(name, r, off) {
                Err(e) => {
                    proof {
                        assert(planned(*o, t, (i + 1) as nat) is Err);
                        lemma_plan_refused(*o, t, (i + 1) as nat, t.len());
                    }
                    return Err(e);
                },
                Ok(None) => {},
                Ok(Some(item)) => {
                    let ghost before = out@;
                    let ghost iv = item@;
                    off = item.off + item.len;
                    out.push(item);
                    assert(items_of(out@) =~= items_of(before).push(iv));
                },
            }
            i += 1;
        }
        Ok(out)
    }
}

/// Lengths as JSON.
pub open spec fn json_counts(v: Seq<usize>) -> Seq<JsonV> {
    Seq::new(v.len(), |i: int| JsonV::Num(NumberV::Pos(v[i] as u64)))
}

/// How a packed header describes a tensor.
pub open spec fn described(i: ItemV) -> JsonV {
    JsonV::Obj(
        seq![
            ("dt"@, JsonV::Str(name_of(i.dt))),
            ("len"@, JsonV::Num(NumberV::Pos(i.len))),
            ("off"@, JsonV::Num(NumberV::Pos(i.off))),
            ("shape"@, JsonV::Arr(json_counts(i.shape))),
        ],
    )
}

/// The tensors of a packed header.
pub open spec fn described_all(v: Seq<ItemV>) -> Seq<(Seq<char>, JsonV)> {
    Seq::new(v.len(), |i: int| (v[i].dest, described(v[i])))
}

/// A tensor put among others that stand in the order of their names. It takes the place
/// of one that is named alike.
pub open spec fn placed(v: Seq<ItemV>, i: ItemV) -> Seq<ItemV>
    decreases v.len(),
{
    if v.len() == 0 || before(v.last().dest, i.dest) {
        v.push(i)
    } else if v.last().dest == i.dest {
        v.drop_last().push(i)
    } else {
        placed(v.drop_last(), i).push(v.last())
    }
}

/// The first `n` tensors of a plan in the order of their names.
pub open spec fn by_name(v: Seq<ItemV>, n: nat) -> Seq<ItemV>
    decreases n,
{
    if n == 0 || n > v.len() {
        Seq::empty()
    } else {
        placed(by_name(v, (n - 1) as nat), v[n - 1])
    }
}

/// Whether tensors stand in the order of their names, no name twice.
pub open spec fn in_order(v: Seq<ItemV>) -> bool {
    forall|i: int, j: int| 0 <= i < j < v.len() ==> before((#[trigger] v[i]).dest, (#[trigger] v[j]).dest)
}

/// Putting a tensor among others keeps the order, and every other name.
proof fn lemma_placed(v: Seq<ItemV>, i: ItemV)
    requires
        in_order(v),
    ensures
        in_order(placed(v, i)),
        placed(v, i).contains(i),
        forall|x: ItemV| #[trigger] placed(v, i).contains(x) ==> x == i || v.contains(x),
        forall|x: ItemV| #[trigger] v.contains(x) && x.dest != i.dest ==> placed(v, i).contains(x),
    decreases v.len(),
{
    let w = placed(v, i);
    if v.len() == 0 || before(v.last().dest, i.dest) {
        assert(w[v.len() as int] == i);
        assert forall|a: int, b: int| 0 <= a < b < w.len() implies before((#[trigger] w[a]).dest, (#[trigger] w[b]).dest) by {
            if b == v.len() && a < v.len() - 1 {
                lemma_chain(v[a].dest, v.last().dest, i.dest, 0);
            }
        }
        assert forall|x: ItemV| #[trigger] w.contains(x) implies x == i || v.contains(x) by {
            let k = choose|k: int| 0 <= k < w.len() && w[k] == x;
            if k < v.len() {
                assert(v[k] == x);
            }
        }
        assert forall|x: ItemV| #[trigger] v.contains(x) implies w.contains(x) by {
            let k = choose|k: int| 0 <= k < v.len() && v[k] == x;
            assert(w[k] == x);
        }
    } else {
        let d = v.drop_last();
        let n = v.len() - 1;
        assert forall|a: int, b: int| 0 <= a < b < d.len() implies before((#[trigger] d[a]).dest, (#[trigger] d[b]).dest) by {
            assert(d[a] == v[a] && d[b] == v[b]);
        }
        if v.last().dest == i.dest {
            assert(w[n] == i);
            assert forall|a: int, b: int| 0 <= a < b < w.len() implies before((#[trigger] w[a]).dest, (#[trigger] w[b]).dest) by {
                assert(w[a] == v[a]);
                assert(w[b].dest == v[b].dest);
            }
            assert forall|x: ItemV| #[trigger] w.contains(x) implies x == i || v.contains(x) by {
                let k = choose|k: int| 0 <= k < w.len() && w[k] == x;
                if k < n {
                    assert(v[k] == x);
                }
            }
            assert forall|x: ItemV| #[trigger] v.contains(x) && x.dest != i.dest implies w.contains(x) by {
                let k = choose|k: int| 0 <= k < v.len() && v[k] == x;
                assert(w[k] == x);
            }
        } else {
            lemma_placed(d, i);
            let p = placed(d, i);
            assert(v.last().dest.take(0) =~= i.dest.take(0));
            lemma_total(v.last().dest, i.dest, 0);
            assert(before(i.dest, v.last().dest));
            assert(w == p.push(v.last()));
            assert(w.last() == v.last());
            assert forall|a: int| 0 <= a < p.len() implies before((#[trigger] p[a]).dest, v.last().dest) by {
                assert(p.contains(p[a]));
                if p[a] != i {
                    let k = choose|k: int| 0 <= k < d.len() && d[k] == p[a];
                    assert(v[k] == p[a]);
                    assert(v[n] == v.last());
                }
            }
            assert forall|a: int, b: int| 0 <= a < b < w.len() implies before((#[trigger] w[a]).dest, (#[trigger] w[b]).dest) by {
                assert(w[a] == p[a]);
                if b < p.len() {
                    assert(w[b] == p[b]);
                }
            }
            assert(w.contains(i)) by {
                let k = choose|k: int| 0 <= k < p.len() && p[k] == i;
                assert(w[k] == i);
            }
            assert forall|x: ItemV| #[trigger] w.contains(x) implies x == i || v.contains(x) by {
                let k = choose|k: int| 0 <= k < w.len() && w[k] == x;
                if k < p.len() {
                    assert(p[k] == x);
                    assert(p.contains(x));
                    if x != i {
                        let m = choose|m: int| 0 <= m < d.len() && d[m] == x;
                        assert(v[m] == x);
                    }
                } else {
                    assert(v[n] == x);
                }
            }
            assert forall|x: ItemV| #[trigger] v.contains(x) && x.dest != i.dest implies w.contains(x) by {
                let k = choose|k: int| 0 <= k < v.len() && v[k] == x;
                if k < n {
                    assert(d[k] == x);
                    assert(d.contains(x));
                    let m = choose|m: int| 0 <= m < p.len() && p[m] == x;
                    assert(w[m] == x);
                } else {
                    assert(w[p.len() as int] == x);
                }
            }
        }
    }
}

/// Tensors that are named apart are the same ones in the order of their names.
proof fn lemma_by_name(v: Seq<ItemV>, n: nat)
    requires
        n <= v.len(),
        forall|i: int, j: int| 0 <= i < j < v.len() ==> (#[trigger] v[i]).dest != (#[trigger] v[j]).dest,
    ensures
        in_order(by_name(v, n)),
        forall|i: int| 0 <= i < n ==> by_name(v, n).contains(#[trigger] v[i]),
        forall|x: ItemV| #[trigger] by_name(v, n).contains(x) ==> exists|i: int| 0 <= i < n && #[trigger] v[i] == x,
    decreases n,
{
    if n > 0 {
        lemma_by_name(v, (n - 1) as nat);
        let w = by_name(v, (n - 1) as nat);
        lemma_placed(w, v[n - 1]);
        assert forall|i: int| 0 <= i < n implies by_name(v, n).contains(#[trigger] v[i]) by {
            if i < n - 1 {
                assert(w.contains(v[i]));
                assert(v[i].dest != v[n - 1].dest);
            }
        }
        assert forall|x: ItemV| #[trigger] by_name(v, n).contains(x) implies exists|i: int|
            0 <= i < n && #[trigger] v[i] == x by {
            if x == v[n - 1] {
                assert(v[n - 1] == x);
            } else {
                assert(w.contains(x));
            }
        }
    }
}

/// The places of the tensors that stand in a list of places.
spec fn at_places(v: Seq<Item>, places: Seq<usize>) -> Seq<ItemV> {
    Seq::new(places.len(), |k: int| v[places[k] as int]@)
}

/// The places of a plan's tensors in the order of their names.
fn places_by_name(v: &Vec<Item>) -> (r: Vec<usize>)
    ensures
        forall|k: int| 0 <= k < r@.len() ==> #[trigger] r@[k] < v@.len(),
        at_places(v@, r@) == by_name(items_of(v@), v@.len()),
{
    let mut out: Vec<usize> = Vec::new();
    let ghost all = items_of(v@);
    let mut i: usize = 0;
    assert(at_places(v@, out@) =~= by_name(all, 0));
    while i < v.len()
        invariant
            i <= v@.len(),
            all == items_of(v@),
            forall|k: int| 0 <= k < out@.len() ==> #[trigger] out@[k] < v@.len(),
            at_places(v@, out@) == by_name(all, i as nat),
        decreases v@.len() - i,
    {
        let ghost w = at_places(v@, out@);
        let ghost x = all[i as int];
        let mut k: usize = out.len();
        let mut alike: bool = false;
        assert(w.take(k as int) =~= w);
        assert(placed(w.take(k as int), x) + w.skip(k as int) =~= placed(w, x));
        while k > 0 && !alike && !precedes(v[out[k - 1]].dest.as_str(), v[i].dest.as_str())
            invariant
                i < v@.len(),
                all == items_of(v@),
                x == all[i as int],
                k <= out@.len(),
                forall|k: int| 0 <= k < out@.len() ==> #[trigger] out@[k] < v@.len(),
                w == at_places(v@, out@),
                placed(w.take(k as int), x) + w.skip(k as int) == placed(w, x),
                alike ==> k > 0 && w[k - 1].dest == x.dest && !before(w[k - 1].dest, x.dest),
            decreases k + (if alike { 0int } else { 1int }),
        {
            let ghost t = w.take(k as int);
            assert(t.last() == w[k - 1]);
            assert(t.drop_last() =~= w.take(k - 1));
            if same(v[out[k - 1]].dest.as_str(), v[i].dest.as_str()) {
                alike = true;
            } else {
                k -= 1;
                assert(placed(t.drop_last(), x).push(t.last()) + w.skip(k + 1) =~= placed(w.take(k as int), x) + w.skip(
                    k as int,
                ));
            }
        }
        let ghost t = w.take(k as int);
        let ghost was = out@;
        if alike {
            assert(t.last() == w[k - 1]);
            out.set(k - 1, i);
            assert(at_places(v@, out@) =~= t.drop_last().push(x) + w.skip(k as int));
        } else {
            assert(k > 0 ==> t.last() == w[k - 1]);
            out.insert(k, i);
            assert(at_places(v@, out@) =~= t.push(x) + w.skip(k as int));
        }
        assert(at_places(v@, out@) == placed(w, x));
        i += 1;
    }
    out
}

/// A packed header.
pub open spec fn header_of(v: Seq<ItemV>, config: JsonV, tokenizer: JsonV, chat: JsonV) -> JsonV {
    JsonV::Obj(
        seq![
            ("chat_template"@, chat),
            ("config"@, config),
            ("tensors"@, JsonV::Obj(described_all(by_name(v, v.len())))),
            ("tokenizer"@, tokenizer),
        ],
    )
}

fn describe(i: &Item) -> (r: Json)
    ensures
        r@ == described(i@),
{
    let mut shape: Vec<Json> = Vec::new();
    let mut k: usize = 0;
    while k < i.shape.len()
        invariant
            k <= i.shape@.len(),
            shape@.len() == k,
            forall|m: int| 0 <= m < k ==> (#[trigger] shape@[m])@ == JsonV::Num(NumberV::Pos(i.shape@[m] as u64)),
        decreases i.shape@.len() - k,
    {
        shape.push(number(i.shape[k] as u64));
        k += 1;
    }
    assert(item_views(shape@) =~= json_counts(i.shape@));
    let mut e: Vec<(String, Json)> = Vec::new();
    assert(entry_views(e@) =~= Seq::empty());
    put(&mut e, "dt", string(i.dt.name()));
    put(&mut e, "len", number(i.len));
    put(&mut e, "off", number(i.off));
    put(&mut e, "shape", array(shape));
    let r: Json = object(e);
    assert(r@->Obj_0 =~= described(i@)->Obj_0);
    r
}

/// The header of a packed file: the config, the tokenizer and the chat template,
/// carried along so that the packed model needs nothing beside it, and the tensors.
pub fn header(v: &Vec<Item>, config: Json, tokenizer: Json, chat: Json) -> (r: Json)
    ensures
        r@ == header_of(items_of(v@), config@, tokenizer@, chat@),
{
    let order: Vec<usize> = places_by_name(v);
    let ghost w = by_name(items_of(v@), v@.len());
    let mut tensors: Vec<(String, Json)> = Vec::new();
    let mut k: usize = 0;
    while k < order.len()
        invariant
            k <= order@.len(),
            forall|m: int| 0 <= m < order@.len() ==> #[trigger] order@[m] < v@.len(),
            at_places(v@, order@) == w,
            tensors@.len() == k,
            forall|m: int| 0 <= m < k ==> (#[trigger] tensors@[m]).0@ == w[m].dest && tensors@[m].1@ == described(w[m]),
        decreases order@.len() - k,
    {
        let i: &Item = &v[order[k]];
        assert(i@ == w[k as int]);
        tensors.push((i.dest.as_str().to_owned(), describe(i)));
        k += 1;
    }
    assert(entry_views(tensors@) =~= described_all(w));
    let mut e: Vec<(String, Json)> = Vec::new();
    assert(entry_views(e@) =~= Seq::empty());
    put(&mut e, "chat_template", chat);
    put(&mut e, "config", config);
    put(&mut e, "tensors", object(tensors));
    put(&mut e, "tokenizer", tokenizer);
    let r: Json = object(e);
    assert(r@->Obj_0 =~= header_of(items_of(v@), config@, tokenizer@, chat@)->Obj_0);
    r
}

/// The bytes of a tensor are as many as its dimensions take.
pub open spec fn fitting(i: ItemV) -> bool {
    &&& writable(i.dt)
    &&& i.shape.len() == 2 ==> i.len == i.shape[0] * i.dt.row_size(i.shape[1] as int)
    &&& i.shape.len() == 3 ==> i.len == i.shape[0] * i.shape[1] * i.dt.row_size(i.shape[2] as int)
    &&& i.shape.len() == 2 || i.shape.len() == 3
    &&& i.off + i.len <= u64::MAX
}

/// The slabs of a stack that is kept in part are whole.
pub open spec fn whole_slabs(k: KeptV, r: Rec) -> bool {
    k.slabs matches Some(n) ==> n > 0 && height_of(k, r) == n * r.rows
}

proof fn lemma_selected_whole(o: Order, name: Seq<char>, r: Rec)
    requires
        r.slabs * r.rows <= usize::MAX,
        o.selection(name, r) matches Ok(SelectionV::Keep(k)),
    ensures
        whole_slabs(o.selection(name, r)->Ok_0->Keep_0, r),
{
    if o.prune is Some && layer_in(name) is Some {
        let (layer, from) = layer_in(name)->0;
        let p = *o.prune->0;
        if p.kept_in(layer) is Some {
            let keep = p.kept_in(layer)->0;
            let vec = p.keep@[layer as int];
            assert(keep.len() == vec.len());
        }
    }
}

/// Whether a tensor is a stack that is narrowed like a matrix: a router of three
/// dimensions, which no checkpoint has.
pub open spec fn stacked_router(o: Order, name: Seq<char>, r: Rec) -> bool {
    r.slabs > 1 && (o.selection(name, r) matches Ok(SelectionV::Keep(k)) && k.rows is Some && k.slabs is None)
}

proof fn lemma_item_fits(o: Order, name: Seq<char>, r: Rec, off: int)
    requires
        o.valid(),
        off >= 0,
        !stacked_router(o, name, r),
        item_of(o, name, r, off) matches Ok(Some(i)),
    ensures
        fitting(item_of(o, name, r, off)->Ok_0->0),
{
    let k = o.selection(name, r)->Ok_0->Keep_0;
    let i = item_of(o, name, r, off)->Ok_0->0;
    lemma_selected_whole(o, name, r);
    let h = height_of(k, r);
    let row = i.dt.row_size(width_of(k, r));
    crate::store::lemma_row_size(i.dt, width_of(k, r));
    assert(h * row >= 0) by (nonlinear_arith)
        requires
            h >= 0,
            row >= 0,
    ;
    assert(k.cols matches Some(c) ==> c.len() <= usize::MAX) by {
        lemma_selected_narrow(o, name, r);
    }
    if k.slabs is Some {
        let n = k.slabs->0 as int;
        let rows = r.rows as int;
        assert(h / n == rows) by (nonlinear_arith)
            requires
                n > 0,
                h == n * rows,
        ;
    } else if r.slabs <= 1 {
        assert(h <= usize::MAX) by {
            lemma_selected_narrow(o, name, r);
        }
    }
}

/// What is selected of a tensor is listed in memory, so its length is a machine
/// word.
proof fn lemma_selected_narrow(o: Order, name: Seq<char>, r: Rec)
    requires
        r.slabs * r.rows <= usize::MAX,
        o.selection(name, r) matches Ok(SelectionV::Keep(k)),
    ensures
        o.selection(name, r)->Ok_0->Keep_0.cols matches Some(c) ==> c.len() <= usize::MAX,
        o.selection(name, r)->Ok_0->Keep_0.slabs is None ==> height_of(o.selection(name, r)->Ok_0->Keep_0, r)
            <= usize::MAX,
{
    if o.prune is Some && layer_in(name) is Some {
        let (layer, from) = layer_in(name)->0;
        let p = *o.prune->0;
        if p.kept_in(layer) is Some {
            let vec = p.keep@[layer as int];
            assert(p.kept_in(layer)->0.len() == vec.len());
        }
    }
}

/// The tensors of a plan lie one after another from the beginning of the payload,
/// without gaps, and the bytes of each are as many as its dimensions take.
pub proof fn law_plan_is_contiguous(o: Order, t: Seq<(Seq<char>, Rec)>, n: nat)
    requires
        o.valid(),
        n <= t.len(),
        planned(o, t, n) is Ok,
        forall|k: int| 0 <= k < t.len() ==> !stacked_router(o, (#[trigger] t[k]).0, t[k].1),
    ensures
        ({
            let v = planned(o, t, n)->Ok_0;
            &&& forall|i: int| 0 <= i < v.len() ==> fitting(#[trigger] v[i])
            &&& forall|i: int| 0 <= i < v.len() ==> (#[trigger] v[i]).off == end_of(v.take(i))
        }),
    decreases n,
{
    if n > 0 {
        law_plan_is_contiguous(o, t, (n - 1) as nat);
        let w = planned(o, t, (n - 1) as nat)->Ok_0;
        let v = planned(o, t, n)->Ok_0;
        if w.len() > 0 {
            assert(fitting(w[w.len() - 1]));
        }
        if v.len() > w.len() {
            assert(!stacked_router(o, t[n - 1].0, t[n - 1].1));
            lemma_item_fits(o, t[n - 1].0, t[n - 1].1, end_of(w));
            assert(v.take(w.len() as int) =~= w);
            assert forall|i: int| 0 <= i < v.len() implies fitting(#[trigger] v[i]) && v[i].off == end_of(v.take(i)) by {
                if i < w.len() {
                    assert(v[i] == w[i]);
                    assert(v.take(i) =~= w.take(i));
                }
            }
        }
    }
}

/// The tensor that a plan describes.
pub open spec fn rec_of(i: ItemV, start: int) -> Rec {
    Rec {
        map: 0,
        off: (i.off + start) as usize,
        dt: i.dt,
        slabs: if i.shape.len() == 3 {
            i.shape[0]
        } else {
            1
        },
        rows: if i.shape.len() == 3 {
            i.shape[1]
        } else {
            i.shape[0]
        },
        cols: i.shape.last(),
    }
}

proof fn lemma_counts(v: Seq<usize>, n: nat)
    requires
        n <= v.len(),
    ensures
        counts(json_counts(v), n) == v.take(n as int),
    decreases n,
{
    if n > 0 {
        lemma_counts(v, (n - 1) as nat);
        assert(v.take(n as int) =~= v.take(n - 1).push(v[n - 1]));
    } else {
        assert(v.take(0) =~= Seq::empty());
    }
}

/// What a packed header says of a tensor is read back as it was planned, where the
/// file holds its bytes.
pub proof fn law_description_reads_back(i: ItemV, start: int, len: int)
    requires
        fitting(i),
        0 <= start,
        start + i.off + i.len <= len <= usize::MAX,
    ensures
        found(Layout::Packed, i.dest, described(i), start, 0) == Found::At(rec_of(i, start)),
        rec_of(i, start).off + rec_of(i, start).size() <= len,
{
    let d = described(i);
    let m = d->Obj_0;
    reveal_strlit("dt");
    reveal_strlit("shape");
    reveal_strlit("off");
    reveal_strlit("len");
    assert("off"@[0] == 'o' && "len"@[0] == 'l');
    assert("dt"@.len() == 2 && "shape"@.len() == 5 && "off"@.len() == 3);
    assert(m[0].0 == "dt"@ && m[1].0 == "len"@ && m[2].0 == "off"@ && m[3].0 == "shape"@);
    reveal_with_fuel(crate::json::entry_from, 5);
    assert(d.field("dt"@) == m[0].1);
    assert(d.field("off"@) == m[2].1);
    assert(d.field("shape"@) == m[3].1);
    crate::quant::law_names_round_trip(i.dt);
    let shape = json_counts(i.shape);
    lemma_counts(i.shape, i.shape.len());
    assert(i.shape.take(i.shape.len() as int) =~= i.shape);
    assert(dims_of(d) == i.shape);
    let dims = shaped(i.shape)->0;
    let rec = rec_of(i, start);
    assert(rec.size() == i.len) by {
        let row = i.dt.row_size(i.shape.last() as int);
        assert(1 * i.shape[0] * row == i.shape[0] * row) by (nonlinear_arith);
    }
}

/// The records of the first `n` tensors of a plan, under their names.
spec fn records(v: Seq<ItemV>, start: int, n: nat) -> Seq<(Seq<char>, Rec)> {
    Seq::new(n, |i: int| (v[i].dest, rec_of(v[i], start)))
}

/// A tensor of a plan ends where the payload does, or before.
proof fn lemma_inside(v: Seq<ItemV>, i: int)
    requires
        0 <= i < v.len(),
        forall|k: int| 0 <= k < v.len() ==> (#[trigger] v[k]).off == end_of(v.take(k)),
    ensures
        v[i].off + v[i].len <= end_of(v),
    decreases v.len() - i,
{
    if i < v.len() - 1 {
        lemma_inside(v, i + 1);
        assert(v[i + 1].off == end_of(v.take(i + 1)));
        assert(v.take(i + 1).last() == v[i]);
    }
}

proof fn lemma_recorded(v: Seq<ItemV>, start: int, len: int, n: nat)
    requires
        n <= v.len(),
        forall|i: int| 0 <= i < v.len() ==> fitting(#[trigger] v[i]),
        forall|i: int| 0 <= i < v.len() ==> start + (#[trigger] v[i]).off + v[i].len <= len,
        0 <= start,
        len <= usize::MAX,
    ensures
        recorded(Layout::Packed, described_all(v), start, 0, n) == Ok::<Seq<(Seq<char>, Rec)>, RefusalV>(
            records(v, start, n),
        ),
    decreases n,
{
    if n == 0 {
        assert(records(v, start, 0) =~= Seq::empty());
    } else {
        lemma_recorded(v, start, len, (n - 1) as nat);
        assert(fitting(v[n - 1]));
        law_description_reads_back(v[n - 1], start, len);
        assert(records(v, start, n) =~= records(v, start, (n - 1) as nat).push((v[n - 1].dest, rec_of(v[n - 1], start))));
    }
}

proof fn lemma_extended(r: Seq<(Seq<char>, Rec)>)
    requires
        forall|i: int, j: int| 0 <= i < j < r.len() ==> (#[trigger] r[i]).0 != (#[trigger] r[j]).0,
    ensures
        forall|i: int|
            0 <= i < r.len() ==> extended(Map::empty(), r).dom().contains((#[trigger] r[i]).0) && extended(Map::empty(), r)[r[i].0]
                == r[i].1,
        forall|name: Seq<char>| #[trigger]
            extended(Map::empty(), r).dom().contains(name) ==> exists|i: int| 0 <= i < r.len() && (#[trigger] r[i]).0 == name,
    decreases r.len(),
{
    if r.len() > 0 {
        let s = r.drop_last();
        let n = r.len() - 1;
        assert forall|i: int, j: int| 0 <= i < j < s.len() implies (#[trigger] s[i]).0 != (#[trigger] s[j]).0 by {
            assert(s[i] == r[i] && s[j] == r[j]);
        }
        lemma_extended(s);
        let before = extended(Map::<Seq<char>, Rec>::empty(), s);
        let all = extended(Map::<Seq<char>, Rec>::empty(), r);
        assert(all == before.insert(r[n].0, r[n].1));
        assert forall|i: int| 0 <= i < r.len() implies all.dom().contains((#[trigger] r[i]).0) && all[r[i].0] == r[i].1 by {
            if i < n {
                assert(s[i] == r[i]);
                assert(r[i].0 != r[n].0);
            }
        }
        assert forall|name: Seq<char>| #[trigger] all.dom().contains(name) implies exists|i: int|
            0 <= i < r.len() && (#[trigger] r[i]).0 == name by {
            if name == r[n].0 {
                assert(r[n].0 == name);
            } else {
                assert(before.dom().contains(name));
                let i = choose|i: int| 0 <= i < s.len() && (#[trigger] s[i]).0 == name;
                assert(r[i].0 == name);
            }
        }
    }
}

/// A packed file reads back as it was planned: behind its preamble and its header, every
/// tensor of the plan is found under its name, where and as it was written, and no other;
/// all of them lie inside the file; and the config, the tokenizer and the chat template are
/// those that were carried along. The header is taken to read as what it was written from.
pub proof fn law_packed_file_reads_back(
    o: Order,
    t: Seq<(Seq<char>, Rec)>,
    config: JsonV,
    tokenizer: JsonV,
    chat: JsonV,
    head: Seq<u8>,
    payload: Seq<u8>,
)
    requires
        o.valid(),
        planned(o, t, t.len()) is Ok,
        forall|k: int| 0 <= k < t.len() ==> !stacked_router(o, (#[trigger] t[k]).0, t[k].1),
        ({
            let v = planned(o, t, t.len())->Ok_0;
            &&& payload.len() >= end_of(v)
            &&& forall|i: int, j: int| 0 <= i < j < v.len() ==> (#[trigger] v[i]).dest != (#[trigger] v[j]).dest
            &&& parsed(head) == Ok::<JsonV, Seq<char>>(header_of(v, config, tokenizer, chat))
        }),
        head.len() <= u64::MAX,
        16 + head.len() + payload.len() <= usize::MAX,
    ensures
        ({
            let v = planned(o, t, t.len())->Ok_0;
            let b = preamble_of(head.len() as u64) + (head + payload);
            &&& packed_file(b) matches Ok((h, table))
            &&& forall|i: int|
                0 <= i < v.len() ==> table.dom().contains((#[trigger] v[i]).dest) && table[v[i].dest] == rec_of(
                    v[i],
                    (16 + head.len()) as int,
                ) && inside(table[v[i].dest], seq![b])
            &&& forall|name: Seq<char>| #[trigger]
                table.dom().contains(name) ==> exists|i: int| 0 <= i < v.len() && (#[trigger] v[i]).dest == name
            &&& h.field("config"@) == config && h.field("tokenizer"@) == tokenizer && h.field("chat_template"@) == chat
        }),
{
    let v = planned(o, t, t.len())->Ok_0;
    let w = by_name(v, v.len());
    let h = header_of(v, config, tokenizer, chat);
    let b = preamble_of(head.len() as u64) + (head + payload);
    let start = 16 + head.len();
    law_preamble_reads_back(head.len() as u64, head + payload);
    assert(b.subrange(16, start as int) =~= head);
    law_plan_is_contiguous(o, t, t.len());
    lemma_by_name(v, v.len());
    assert forall|k: int| 0 <= k < w.len() implies fitting(#[trigger] w[k]) && start + w[k].off + w[k].len <= b.len() by {
        assert(w.contains(w[k]));
        let i = choose|i: int| 0 <= i < v.len() && #[trigger] v[i] == w[k];
        lemma_inside(v, i);
    }
    lemma_recorded(w, start as int, b.len() as int, w.len());
    let m = h->Obj_0;
    reveal_strlit("config");
    reveal_strlit("tokenizer");
    reveal_strlit("chat_template");
    reveal_strlit("tensors");
    assert("config"@.len() == 6 && "tokenizer"@.len() == 9 && "chat_template"@.len() == 13 && "tensors"@.len() == 7);
    assert(m[0].0 == "chat_template"@ && m[1].0 == "config"@ && m[2].0 == "tensors"@ && m[3].0 == "tokenizer"@);
    reveal_with_fuel(crate::json::entry_from, 5);
    assert(h.field("tensors"@) == m[2].1);
    assert(entries(h.field("tensors"@)) == described_all(w));
    let r = records(w, start as int, w.len());
    assert forall|i: int, j: int| 0 <= i < j < r.len() implies (#[trigger] r[i]).0 != (#[trigger] r[j]).0 by {
        assert(before(w[i].dest, w[j].dest));
        lemma_one_way(w[i].dest, w[j].dest, 0);
    }
    lemma_extended(r);
    let table = extended(Map::<Seq<char>, Rec>::empty(), r);
    assert(packed_table(b, h) == Ok::<Map<Seq<char>, Rec>, RefusalV>(table));
    assert forall|i: int| 0 <= i < v.len() implies table.dom().contains((#[trigger] v[i]).dest) && table[v[i].dest] == rec_of(
        v[i],
        start as int,
    ) && inside(table[v[i].dest], seq![b]) by {
        assert(w.contains(v[i]));
        let k = choose|k: int| 0 <= k < w.len() && w[k] == v[i];
        assert(r[k].0 == v[i].dest);
        assert(fitting(w[k]) && start + w[k].off + w[k].len <= b.len());
        law_description_reads_back(v[i], start as int, b.len() as int);
    }
    assert forall|name: Seq<char>| #[trigger] table.dom().contains(name) implies exists|i: int|
        0 <= i < v.len() && (#[trigger] v[i]).dest == name by {
        let k = choose|k: int| 0 <= k < r.len() && (#[trigger] r[k]).0 == name;
        assert(w.contains(w[k]));
        let i = choose|i: int| 0 <= i < v.len() && #[trigger] v[i] == w[k];
        assert(v[i].dest == name);
    }
}

/// The router narrows in step with the experts: the row that is written at the
/// place an expert is renumbered to is that expert's own row.
pub proof fn law_router_follows_experts(keep: Seq<u32>, e: u32)
    ensures
        place_in(keep, e, 0) matches Some(new) ==> 0 <= new < keep.len() && widened(keep)[new] == e,
        place_in(keep, e, 0) is None <==> !keep.contains(e),
{
    lemma_place(keep, e, 0);
}

proof fn lemma_place(keep: Seq<u32>, e: u32, from: int)
    requires
        0 <= from <= keep.len(),
    ensures
        place_in(keep, e, from) matches Some(new) ==> from <= new < keep.len() && keep[new] == e && forall|k: int|
            from <= k < new ==> keep[k] != e,
        place_in(keep, e, from) is None <==> forall|k: int| from <= k < keep.len() ==> keep[k] != e,
    decreases keep.len() - from,
{
    if from < keep.len() && keep[from] != e {
        lemma_place(keep, e, from + 1);
    }
}

/// Kept experts are renumbered contiguously: where none comes twice, the numbers
/// are all those below the count, each given once.
pub proof fn law_renumbering_is_contiguous(keep: Seq<u32>, i: int)
    requires
        keep.no_duplicates(),
        0 <= i < keep.len(),
    ensures
        place_in(keep, keep[i], 0) == Some(i),
{
    lemma_place(keep, keep[i], 0);
}

/// A fused stack keeps whole slabs in the new order: row `j` of the slab that an
/// expert is renumbered to is row `j` of that expert's own slab.
pub proof fn law_slabs_stay_whole(keep: Seq<u32>, rows: usize, new: int, j: int)
    requires
        0 <= new < keep.len(),
        0 <= j < rows,
        keep[new] * rows + j <= usize::MAX,
    ensures
        slab_rows(keep, rows)[new * rows + j] == keep[new] * rows + j,
{
    let k = new * rows + j;
    assert(0 <= k < keep.len() * rows && k / rows as int == new && k % rows as int == j) by (nonlinear_arith)
        requires
            k == new * rows + j,
            0 <= j < rows,
            0 <= new < keep.len(),
    ;
}

/// A packed model declares the experts it has: where the config counts them, it
/// counts as many as are kept, and no more are chosen than there are.
pub proof fn law_config_agrees(config: JsonV, p: Prune, i: int)
    requires
        p.widest(p.keep@.len()) > 0,
        config is Obj,
        0 <= i < config->Obj_0.len(),
    ensures
        ({
            let width = p.widest(p.keep@.len());
            let m = rewritten_all(config, width, p.top_k as int)->Obj_0;
            &&& m.len() == config->Obj_0.len()
            &&& m[i].0 == config->Obj_0[i].0
            &&& counts_experts(m[i].0) ==> m[i].1.as_u64() == Some(width as u64)
            &&& counts_chosen(m[i].0) ==> (m[i].1.as_u64() matches Some(n) && n <= width)
            &&& !counts_experts(m[i].0) && !counts_chosen(m[i].0) && !counts_groups(m[i].0) ==> m[i]
                == config->Obj_0[i]
        }),
{
    lemma_chosen_apart(config->Obj_0[i].0);
    lemma_widest_fits(p, p.keep@.len());
}

proof fn lemma_widest_fits(p: Prune, n: nat)
    requires
        n <= p.keep@.len(),
    ensures
        0 <= p.widest(n) <= usize::MAX,
    decreases n,
{
    if n > 0 {
        lemma_widest_fits(p, (n - 1) as nat);
        let v = p.keep@[n - 1];
        assert(v@.len() == v.len());
    }
}

proof fn lemma_chosen_apart(key: Seq<char>)
    ensures
        counts_chosen(key) ==> !counts_experts(key),
{
    reveal_strlit("num_experts");
    reveal_strlit("n_routed_experts");
    reveal_strlit("num_local_experts");
    reveal_strlit("moe_num_experts");
    reveal_strlit("num_experts_per_tok");
    reveal_strlit("moe_top_k");
    assert("num_experts_per_tok"@.len() == 19 && "moe_top_k"@.len() == 9);
    assert("num_experts"@.len() == 11 && "n_routed_experts"@.len() == 16);
    assert("num_local_experts"@.len() == 17 && "moe_num_experts"@.len() == 15);
}

} // verus!
