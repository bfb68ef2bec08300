//! What a store finds where: which entry of a header is which tensor, and which bytes are which
//! rows.

use vstd::prelude::*;
use crate::gguf::{renamed, InfoV};
use crate::gguf_laws::{law_numbers_are_read, written};
use crate::index::{before, before_from, Rec};
use crate::json::{JsonV, NumberV};
use crate::quant::{format_named, name_of, Dt};
use crate::store::{
    counts, default_from, extended, found, packed_start, recorded, recorded_gguf, shard_start, template_beside,
    template_in, total_size, warmed, Found, Layout, RefusalV, StoreV,
};
use crate::text::trimmed;

verus! {

/// The formats by their names, in capitals or not.
pub proof fn law_formats_are_named(s: Seq<char>)
    ensures
        format_named("F32"@) == Some(Dt::F32),
        format_named("f32"@) == Some(Dt::F32),
        format_named("F16"@) == Some(Dt::F16),
        format_named("f16"@) == Some(Dt::F16),
        format_named("BF16"@) == Some(Dt::BF16),
        format_named("bf16"@) == Some(Dt::BF16),
        format_named("Q8"@) == Some(Dt::Q8),
        format_named("q8"@) == Some(Dt::Q8),
        format_named("Q4"@) == Some(Dt::Q4),
        format_named("q4"@) == Some(Dt::Q4),
        format_named("Q5"@) == Some(Dt::Q5),
        format_named("q5"@) == Some(Dt::Q5),
        format_named("Q6"@) == Some(Dt::Q6),
        format_named("q6"@) == Some(Dt::Q6),
        name_of(Dt::F32) == "F32"@,
        name_of(Dt::F16) == "F16"@,
        name_of(Dt::BF16) == "BF16"@,
        name_of(Dt::Q8) == "Q8"@,
        name_of(Dt::Q4) == "Q4"@,
        name_of(Dt::Q5) == "Q5"@,
        name_of(Dt::Q6) == "Q6"@,
        name_of(Dt::Q4K) == "Q4_K"@,
        name_of(Dt::Q6K) == "Q6_K"@,
        format_named("Q4_K"@) is None && format_named("Q6_K"@) is None,
        format_named(s) is Some ==> s == "F32"@ || s == "f32"@ || s == "F16"@ || s == "f16"@ || s == "BF16"@ || s == "bf16"@ || s == "Q8"@ || s == "q8"@ || s == "Q4"@ || s == "q4"@ || s == "Q5"@ || s == "q5"@ || s == "Q6"@ || s == "q6"@,
{
    reveal_strlit("F32");
    reveal_strlit("f32");
    reveal_strlit("F16");
    reveal_strlit("f16");
    reveal_strlit("BF16");
    reveal_strlit("bf16");
    reveal_strlit("Q8");
    reveal_strlit("q8");
    reveal_strlit("Q4");
    reveal_strlit("q4");
    reveal_strlit("Q5");
    reveal_strlit("q5");
    reveal_strlit("Q6");
    reveal_strlit("q6");
    reveal_strlit("Q4_K");
    reveal_strlit("Q6_K");
    assert("F32"@.len() == 3 && "F32"@[0] == 'F' && "F32"@[1] == '3');
    assert("f32"@.len() == 3 && "f32"@[0] == 'f' && "f32"@[1] == '3');
    assert("F16"@.len() == 3 && "F16"@[0] == 'F' && "F16"@[1] == '1');
    assert("f16"@.len() == 3 && "f16"@[0] == 'f' && "f16"@[1] == '1');
    assert("BF16"@.len() == 4 && "BF16"@[0] == 'B');
    assert("bf16"@.len() == 4 && "bf16"@[0] == 'b');
    assert("Q8"@.len() == 2 && "Q8"@[0] == 'Q' && "Q8"@[1] == '8');
    assert("q8"@.len() == 2 && "q8"@[0] == 'q' && "q8"@[1] == '8');
    assert("Q4"@.len() == 2 && "Q4"@[0] == 'Q' && "Q4"@[1] == '4');
    assert("q4"@.len() == 2 && "q4"@[0] == 'q' && "q4"@[1] == '4');
    assert("Q5"@.len() == 2 && "Q5"@[0] == 'Q' && "Q5"@[1] == '5');
    assert("q5"@.len() == 2 && "q5"@[0] == 'q' && "q5"@[1] == '5');
    assert("Q6"@.len() == 2 && "Q6"@[0] == 'Q' && "Q6"@[1] == '6');
    assert("q6"@.len() == 2 && "q6"@[0] == 'q' && "q6"@[1] == '6');
    assert("Q4_K"@.len() == 4 && "Q4_K"@[0] == 'Q' && "Q4_K"@[1] == '4');
    assert("Q6_K"@.len() == 4 && "Q6_K"@[0] == 'Q' && "Q6_K"@[1] == '6');
}

/// Whether a header's entry has these dimensions.
pub open spec fn has_shape(v: JsonV, d: Seq<usize>) -> bool {
    v.get("shape"@) == Some(JsonV::Arr(Seq::new(d.len(), |i: int| JsonV::Num(NumberV::Pos(d[i] as u64)))))
}

proof fn lemma_counts(v: Seq<JsonV>, d: Seq<usize>, n: nat)
    requires
        n <= d.len(),
        v == Seq::new(d.len(), |i: int| JsonV::Num(NumberV::Pos(d[i] as u64))),
    ensures
        counts(v, n) == d.subrange(0, n as int),
    decreases n,
{
    if n > 0 {
        lemma_counts(v, d, (n - 1) as nat);
        assert(v[n - 1] == JsonV::Num(NumberV::Pos(d[n - 1] as u64)));
    }
    assert(counts(v, n) =~= d.subrange(0, n as int));
}

proof fn lemma_dims(v: JsonV, d: Seq<usize>)
    requires
        has_shape(v, d),
    ensures
        crate::store::dims_of(v) == d,
{
    let list = Seq::new(d.len(), |i: int| JsonV::Num(NumberV::Pos(d[i] as u64)));
    lemma_counts(list, d, d.len());
    assert(d.subrange(0, d.len() as int) =~= d);
}

/// A shard's entry is a tensor of its format, with the last dimension along a row, at its first
/// offset behind the header: two dimensions are rows and columns, a third before them counts
/// slabs, and one alone is a single row.
pub proof fn law_shards_describe_tensors(
    name: Seq<char>,
    v: JsonV,
    kind: Seq<char>,
    dt: Dt,
    a: usize,
    b: usize,
    c: usize,
    from: u64,
    to: u64,
    start: int,
    map: usize,
)
    requires
        name != "__metadata__"@,
        v.get("dtype"@) == Some(JsonV::Str(kind)),
        format_named(kind) == Some(dt),
        v.get("data_offsets"@) == Some(JsonV::Arr(seq![JsonV::Num(NumberV::Pos(from)), JsonV::Num(NumberV::Pos(to))])),
        0 <= start,
        from <= usize::MAX,
        start + from <= usize::MAX,
    ensures
        has_shape(v, seq![a]) ==> found(Layout::Shard, name, v, start, map) == Found::At(
            Rec { map, off: (start + from) as usize, dt, slabs: 1, rows: 1, cols: a },
        ),
        has_shape(v, seq![a, b]) ==> found(Layout::Shard, name, v, start, map) == Found::At(
            Rec { map, off: (start + from) as usize, dt, slabs: 1, rows: a, cols: b },
        ),
        has_shape(v, seq![a, b, c]) ==> found(Layout::Shard, name, v, start, map) == Found::At(
            Rec { map, off: (start + from) as usize, dt, slabs: a, rows: b, cols: c },
        ),
{
    if has_shape(v, seq![a]) {
        lemma_dims(v, seq![a]);
    }
    if has_shape(v, seq![a, b]) {
        lemma_dims(v, seq![a, b]);
    }
    if has_shape(v, seq![a, b, c]) {
        lemma_dims(v, seq![a, b, c]);
    }
}

/// What is no tensor is passed over: the metadata of a shard, a format that cannot be read, and a
/// shape of no or of more than three dimensions.
pub proof fn law_other_entries_are_passed_over(name: Seq<char>, v: JsonV, kind: Seq<char>, d: Seq<usize>, start: int, map: usize)
    ensures
        found(Layout::Shard, "__metadata__"@, v, start, map) == Found::Skipped,
        v.get("dtype"@) == Some(JsonV::Str(kind)) && format_named(kind) is None ==> found(Layout::Shard, name, v, start, map)
            == Found::Skipped,
        has_shape(v, d) && (d.len() == 0 || d.len() > 3) ==> found(Layout::Shard, name, v, start, map) == Found::Skipped
            && found(Layout::Packed, name, v, start, map) == Found::Skipped,
{
    if has_shape(v, d) {
        lemma_dims(v, d);
    }
}

/// A packed file's entry is a tensor of its format at its offset behind the header.
pub proof fn law_packed_files_describe_tensors(
    name: Seq<char>,
    v: JsonV,
    kind: Seq<char>,
    dt: Dt,
    a: usize,
    b: usize,
    c: usize,
    from: u64,
    start: int,
    map: usize,
)
    requires
        v.get("dt"@) == Some(JsonV::Str(kind)),
        format_named(kind) == Some(dt),
        v.get("off"@) == Some(JsonV::Num(NumberV::Pos(from))),
        0 <= start,
        from <= usize::MAX,
        start + from <= usize::MAX,
    ensures
        has_shape(v, seq![a, b]) ==> found(Layout::Packed, name, v, start, map) == Found::At(
            Rec { map, off: (start + from) as usize, dt, slabs: 1, rows: a, cols: b },
        ),
        has_shape(v, seq![a, b, c]) ==> found(Layout::Packed, name, v, start, map) == Found::At(
            Rec { map, off: (start + from) as usize, dt, slabs: a, rows: b, cols: c },
        ),
{
    if has_shape(v, seq![a, b]) {
        lemma_dims(v, seq![a, b]);
    }
    if has_shape(v, seq![a, b, c]) {
        lemma_dims(v, seq![a, b, c]);
    }
}

/// The tensors of a header go into the index under their own names, and of two with one name the
/// later stays.
pub proof fn law_later_tensors_replace(t: Map<Seq<char>, Rec>, v: Seq<(Seq<char>, Rec)>, name: Seq<char>, r: Rec, other: Seq<char>)
    ensures
        extended(t, v.push((name, r))).dom().contains(name),
        extended(t, v.push((name, r)))[name] == r,
        other != name ==> extended(t, v.push((name, r))).dom().contains(other) == extended(t, v).dom().contains(other) && extended(
            t,
            v.push((name, r)),
        )[other] == extended(t, v)[other],
        extended(t, Seq::empty()) == t,
{
    assert(v.push((name, r)).drop_last() =~= v);
}

/// An entry that is a tensor is recorded, and one that is passed over is not.
pub proof fn law_entries_are_recorded(
    layout: Layout,
    m: Seq<(Seq<char>, JsonV)>,
    start: int,
    map: usize,
    n: nat,
    before: Seq<(Seq<char>, Rec)>,
    r: Rec,
)
    requires
        0 < n <= m.len(),
        recorded(layout, m, start, map, (n - 1) as nat) == Ok::<Seq<(Seq<char>, Rec)>, RefusalV>(before),
    ensures
        recorded(layout, m, start, map, 0) == Ok::<Seq<(Seq<char>, Rec)>, RefusalV>(Seq::empty()),
        found(layout, m[n - 1].0, m[n - 1].1, start, map) == Found::At(r) ==> recorded(layout, m, start, map, n) == Ok::<
            Seq<(Seq<char>, Rec)>,
            RefusalV,
        >(before.push((m[n - 1].0, r))),
        found(layout, m[n - 1].0, m[n - 1].1, start, map) == Found::Skipped ==> recorded(layout, m, start, map, n) == Ok::<
            Seq<(Seq<char>, Rec)>,
            RefusalV,
        >(before),
{
}

/// A tensor of a GGUF file is recorded under the engine's name, at its offset behind the header,
/// where it lies inside the file; one without a name there is passed over.
pub proof fn law_gguf_files_describe_tensors(
    t: Seq<InfoV>,
    data: int,
    len: int,
    n: nat,
    before: Seq<(Seq<char>, Rec)>,
    name: Seq<char>,
    r: Rec,
)
    requires
        0 < n <= t.len(),
        0 <= data,
        len <= usize::MAX,
        recorded_gguf(t, data, len, (n - 1) as nat) == Ok::<Seq<(Seq<char>, Rec)>, RefusalV>(before),
        r.map == 0 && r.dt == t[n - 1].dt && r.off == data + t[n - 1].offset,
        t[n - 1].shape == seq![r.rows, r.cols] && r.slabs == 1 || t[n - 1].shape == seq![r.slabs, r.rows, r.cols],
    ensures
        renamed(t[n - 1].name) == Some(name) && r.off + r.size() <= len ==> recorded_gguf(t, data, len, n) == Ok::<
            Seq<(Seq<char>, Rec)>,
            RefusalV,
        >(before.push((name, r))),
        renamed(t[n - 1].name) == Some(name) && r.off + r.size() > len ==> recorded_gguf(t, data, len, n) is Err,
        renamed(t[n - 1].name) is None ==> recorded_gguf(t, data, len, n) == Ok::<Seq<(Seq<char>, Rec)>, RefusalV>(before),
{
}

/// The payload of a shard begins behind its length and its header, and that of a packed file behind
/// its magic, its version, its length and its header.
pub proof fn law_payloads_begin_behind_headers(b: Seq<u8>, n: int)
    requires
        b.len() <= usize::MAX,
        0 <= n <= usize::MAX,
    ensures
        b.len() >= 8 && written(b, 0, n, 8) && 8 + n <= b.len() ==> shard_start(b) == Ok::<int, RefusalV>(8 + n),
        b.len() >= 8 && written(b, 0, n, 8) && 8 + n > b.len() ==> shard_start(b) is Err,
        b.len() >= 16 && b[0] == 'M' as u8 && b[1] == 'O' as u8 && b[2] == 'E' as u8 && b[3] == 'F' as u8 && written(b, 4, 1, 4)
            && written(b, 8, n, 8) && 16 + n <= b.len() ==> packed_start(b) == Ok::<int, RefusalV>(16 + n),
        packed_start(b) is Ok ==> b.len() >= 16 && b[0] == 'M' as u8 && b[1] == 'O' as u8 && b[2] == 'E' as u8 && b[3]
            == 'F' as u8,
{
    if b.len() >= 8 && written(b, 0, n, 8) {
        law_numbers_are_read(b, 0, n);
    }
    if b.len() >= 16 && written(b, 8, n, 8) {
        law_numbers_are_read(b, 8, n);
    }
    if b.len() >= 16 && written(b, 4, 1, 4) {
        law_numbers_are_read(b, 4, 1);
    }
}

/// Rows stand one behind the other: a tensor's first row begins where the tensor does, a range of
/// rows ends where the next one begins, and a slab where the one before it ends; each row takes as
/// many bytes as its format needs.
pub proof fn law_rows_follow_each_other(s: StoreV, name: Seq<char>, slab: int, a: int, b: int, c: int)
    requires
        s.index.dom().contains(name),
    ensures
        s.span(name, 0, 0, b) matches Some(p) ==> p.0 == s.index[name].off,
        s.span(name, slab, a, b) matches Some(p) ==> p.1 - p.0 == (b - a) * s.index[name].dt.row_size(
            s.index[name].cols as int,
        ),
        s.span(name, slab, a, b) matches Some(p) ==> s.span(name, slab, b, c) matches Some(q) ==> p.1 == q.0,
        s.span(name, slab, a, s.index[name].rows as int) matches Some(p) ==> s.span(name, slab + 1, 0, c) matches Some(q)
            ==> p.1 == q.0,
{
    let r = s.index[name];
    let stride = r.dt.row_size(r.cols as int);
    assert((0 * r.rows + 0) * stride == 0) by (nonlinear_arith);
    assert((slab * r.rows + a) * stride + (b - a) * stride == (slab * r.rows + b) * stride) by (nonlinear_arith);
    assert((slab * r.rows + a) * stride + (r.rows - a) * stride == ((slab + 1) * r.rows + 0) * stride) by (nonlinear_arith);
}

/// Rows that a tensor has and its file holds can be read.
pub proof fn law_rows_inside_are_read(s: StoreV, name: Seq<char>, slab: int, a: int, b: int)
    requires
        s.index.dom().contains(name),
        0 <= slab < s.index[name].slabs,
        0 <= a < b <= s.index[name].rows,
        s.index[name].off + s.index[name].size() <= s.maps[s.index[name].map as int].len(),
    ensures
        s.span(name, slab, a, b) is Some,
{
    let r = s.index[name];
    let stride = r.dt.row_size(r.cols as int);
    crate::store::lemma_row_size(r.dt, r.cols as int);
    assert(slab * r.rows + b <= r.slabs * r.rows) by (nonlinear_arith)
        requires
            slab + 1 <= r.slabs,
            b <= r.rows,
    ;
    assert((slab * r.rows + a) * stride + (b - a) * stride == (slab * r.rows + b) * stride) by (nonlinear_arith);
    assert((slab * r.rows + b) * stride <= r.slabs * r.rows * stride) by (nonlinear_arith)
        requires
            slab * r.rows + b <= r.slabs * r.rows,
            stride >= 0,
    ;
}

/// What is read to warm a cache is the beginning of the maps, up to the budget and no further.
pub proof fn law_warming_reads_from_the_front(maps: Seq<Seq<u8>>, budget: int, i: int)
    requires
        0 <= i < warmed(maps, budget).len(),
    ensures
        warmed(maps, budget).len() <= maps.len(),
        warmed(maps, budget)[i].len() <= maps[i].len(),
        warmed(maps, budget)[i] == maps[i].take(warmed(maps, budget)[i].len() as int),
        i + 1 < warmed(maps, budget).len() ==> warmed(maps, budget)[i] == maps[i],
    decreases maps.len(),
{
    if maps[0].len() <= budget {
        assert(maps[0].take(maps[0].len() as int) =~= maps[0]);
        if i > 0 {
            law_warming_reads_from_the_front(maps.drop_first(), budget - maps[0].len(), i - 1);
        } else if warmed(maps.drop_first(), budget - maps[0].len()).len() > 0 {
            law_warming_reads_from_the_front(maps.drop_first(), budget - maps[0].len(), 0);
        }
    }
}

/// How much is read to warm a cache: the budget, or everything where there is less.
pub proof fn law_warming_uses_its_budget(maps: Seq<Seq<u8>>, budget: int)
    requires
        0 <= budget,
    ensures
        lengths(warmed(maps, budget)) == (if lengths(maps) < budget { lengths(maps) } else { budget }),
    decreases maps.len(),
{
    if maps.len() > 0 {
        lemma_lengths(maps.drop_first());
    }
    if maps.len() > 0 && budget > 0 {
        if maps[0].len() <= budget {
            law_warming_uses_its_budget(maps.drop_first(), budget - maps[0].len());
            let w = warmed(maps.drop_first(), budget - maps[0].len());
            assert((seq![maps[0]] + w).drop_first() =~= w);
        } else {
            let w = seq![maps[0].take(budget)];
            assert(w.drop_first() =~= Seq::<Seq<u8>>::empty());
            reveal_with_fuel(lengths, 2);
        }
    }
}

/// The lengths of some runs of bytes together.
pub open spec fn lengths(maps: Seq<Seq<u8>>) -> int
    decreases maps.len(),
{
    if maps.len() == 0 {
        0
    } else {
        maps[0].len() + lengths(maps.drop_first())
    }
}

proof fn lemma_lengths(maps: Seq<Seq<u8>>)
    ensures
        lengths(maps) >= 0,
    decreases maps.len(),
{
    if maps.len() > 0 {
        lemma_lengths(maps.drop_first());
    }
}

/// The chat template is a file of its own where that is not blank, and else what the tokenizer's
/// config says: a text, or of a list the one called `default`, or the first.
pub proof fn law_templates_are_found(jinja: Seq<char>, cfg: JsonV, text: Seq<char>, v: Seq<JsonV>, i: int)
    ensures
        trimmed(jinja).len() > 0 ==> template_beside(Some(jinja), Some(cfg)) == Some(jinja),
        trimmed(jinja).len() == 0 ==> template_beside(Some(jinja), Some(cfg)) == template_in(cfg),
        template_beside(None, Some(cfg)) == template_in(cfg),
        cfg.get("chat_template"@) == Some(JsonV::Str(text)) ==> template_in(cfg) == Some(text),
        cfg.get("chat_template"@) == Some(JsonV::Arr(v)) && 0 <= i < v.len() && v[i].get("name"@) == Some(
            JsonV::Str("default"@),
        ) && v[i].get("template"@) == Some(JsonV::Str(text)) && (forall|j: int|
            0 <= j < i ==> (#[trigger] v[j]).get("name"@) is None) ==> template_in(cfg) == Some(text),
        cfg.get("chat_template"@) == Some(JsonV::Arr(v)) && v.len() > 0 && v[0].get("template"@) == Some(JsonV::Str(text)) && (
        forall|j: int| 0 <= j < v.len() ==> (#[trigger] v[j]).get("name"@) is None) ==> template_in(cfg) == Some(text),
{
    if 0 <= i < v.len() && v[i].get("name"@) == Some(JsonV::Str("default"@)) && (forall|j: int|
        0 <= j < i ==> (#[trigger] v[j]).get("name"@) is None) {
        lemma_default(v, 0, i);
    }
    if forall|j: int| 0 <= j < v.len() ==> (#[trigger] v[j]).get("name"@) is None {
        lemma_no_default(v, 0);
    }
}

proof fn lemma_default(v: Seq<JsonV>, from: int, i: int)
    requires
        0 <= from <= i < v.len(),
        v[i].get("name"@) == Some(JsonV::Str("default"@)),
        forall|j: int| 0 <= j < i ==> (#[trigger] v[j]).get("name"@) is None,
    ensures
        default_from(v, from) == Some(v[i]),
    decreases i - from,
{
    if from < i {
        assert(v[from].get("name"@) is None);
        lemma_default(v, from + 1, i);
    }
}

proof fn lemma_no_default(v: Seq<JsonV>, from: int)
    requires
        0 <= from <= v.len(),
        forall|j: int| 0 <= j < v.len() ==> (#[trigger] v[j]).get("name"@) is None,
    ensures
        default_from(v, from) is None,
    decreases v.len() - from,
{
    if from < v.len() {
        assert(v[from].get("name"@) is None);
        lemma_no_default(v, from + 1);
    }
}

/// Names go by their first difference, and what another begins with comes before it.
pub proof fn law_names_go_by_their_first_difference(a: Seq<char>, b: Seq<char>, p: Seq<char>, x: char, y: char)
    ensures
        x < y ==> before(p + seq![x] + a, p + seq![y] + b) && !before(p + seq![y] + b, p + seq![x] + a),
        b.len() > 0 ==> before(a, a + b) && !before(a + b, a),
        !before(a, a),
{
    lemma_before(p + seq![x] + a, p + seq![y] + b, 0, p.len());
    lemma_before(p + seq![y] + b, p + seq![x] + a, 0, p.len());
    lemma_before(a, a + b, 0, a.len());
    lemma_before(a + b, a, 0, a.len());
    lemma_before(a, a, 0, a.len());
}

proof fn lemma_before(a: Seq<char>, b: Seq<char>, i: nat, n: nat)
    requires
        i <= n <= a.len(),
        n <= b.len(),
        forall|k: int| 0 <= k < n ==> #[trigger] a[k] == b[k],
    ensures
        before_from(a, b, i) == before_from(a, b, n),
    decreases n - i,
{
    if i < n {
        assert(a[i as int] == b[i as int]);
        lemma_before(a, b, i + 1, n);
    }
}

/// The size of a store is that of its tensors together.
pub proof fn law_sizes_add_up(v: Seq<(Seq<char>, Rec)>, n: nat)
    requires
        0 < n <= v.len(),
        0 <= v[n - 1].1.size() <= usize::MAX,
    ensures
        total_size(v, n) == total_size(v, (n - 1) as nat) + v[n - 1].1.slabs * v[n - 1].1.rows * v[n - 1].1.dt.row_size(
            v[n - 1].1.cols as int,
        ),
        total_size(v, 0) == 0,
{
}

} // verus!
