//! What the pictures and the reports of a routing trace show, and where.

use vstd::prelude::*;
use crate::report::{busiest, extreme_line, filled, heading, indented, layer_line, spaces, ExtremeV, LayerTextV};
use crate::route::{dead_below, Counts};
use crate::svg::{diff_title, heat_title, Grid};
use crate::text::decimal_of;

verus! {

/// A part stands somewhere in a text.
pub open spec fn shows(s: Seq<char>, part: Seq<char>) -> bool {
    exists|a: Seq<char>, b: Seq<char>| s == #[trigger] (a + part + b)
}

proof fn lemma_shows_itself(s: Seq<char>)
    ensures
        shows(s, s),
{
    assert(s =~= Seq::<char>::empty() + s + Seq::<char>::empty());
}

proof fn lemma_shows_around(a: Seq<char>, s: Seq<char>, b: Seq<char>, part: Seq<char>)
    requires
        shows(s, part),
    ensures
        shows(a + s + b, part),
        shows(a + s, part),
        shows(s + b, part),
{
    let (c, d) = choose|c: Seq<char>, d: Seq<char>| s == #[trigger] (c + part + d);
    assert(a + s + b =~= (a + c) + part + (d + b));
    assert(a + s =~= (a + c) + part + d);
    assert(s + b =~= c + part + (d + b));
}

proof fn lemma_row_shows(g: Grid, row: int, n: nat, e: int)
    requires
        0 <= e < n,
    ensures
        shows(g.row_text(row, n), g.cell_text(row, e)),
    decreases n,
{
    let cell = g.cell_text(row, e);
    let before = g.row_text(row, (n - 1) as nat);
    if e == n - 1 {
        lemma_shows_itself(cell);
        lemma_shows_around(before, cell, Seq::empty(), cell);
    } else {
        lemma_row_shows(g, row, (n - 1) as nat, e);
        lemma_shows_around(Seq::empty(), before, g.cell_text(row, n - 1), cell);
    }
}

proof fn lemma_rows_show(g: Grid, n: nat, row: int, part: Seq<char>)
    requires
        0 <= row < n,
        shows(g.row_text(row, g.experts as nat), part) || shows(g.row_label(row), part),
    ensures
        shows(g.rows_text(n), part),
    decreases n,
{
    let before = g.rows_text((n - 1) as nat);
    let label = g.row_label(n - 1);
    let cells = g.row_text(n - 1, g.experts as nat);
    if row == n - 1 {
        if shows(cells, part) {
            lemma_shows_around(label, cells, Seq::empty(), part);
        } else {
            lemma_shows_around(Seq::empty(), label, cells, part);
        }
        lemma_shows_around(before, label + cells, Seq::empty(), part);
    } else {
        lemma_rows_show(g, (n - 1) as nat, row, part);
        lemma_shows_around(Seq::empty(), before, label + cells, part);
    }
}

proof fn lemma_drawn_rows(g: Grid, part: Seq<char>)
    requires
        shows(g.rows_text(g.layers@.len()), part),
    ensures
        shows(g.drawn(), part),
{
    let rows = g.rows_text(g.layers@.len());
    let columns = g.columns_text(g.experts as nat);
    let rest = g.axis_text() + g.swatches_text(g.colours@.len()) + g.tail_text();
    lemma_shows_around(g.head_text(), rows, Seq::empty(), part);
    lemma_shows_around(Seq::empty(), g.head_text() + rows, columns, part);
    lemma_shows_around(Seq::empty(), g.head_text() + rows + columns, rest, part);
}

proof fn lemma_drawn_columns(g: Grid, part: Seq<char>)
    requires
        shows(g.columns_text(g.experts as nat), part),
    ensures
        shows(g.drawn(), part),
{
    let rows = g.rows_text(g.layers@.len());
    let columns = g.columns_text(g.experts as nat);
    let rest = g.axis_text() + g.swatches_text(g.colours@.len()) + g.tail_text();
    lemma_shows_around(g.head_text() + rows, columns, Seq::empty(), part);
    lemma_shows_around(Seq::empty(), g.head_text() + rows + columns, rest, part);
}

/// Every expert of every layer has its square: thirteen further right for each expert and
/// thirteen further down for each layer, in the cell's own colour, with the layer, the expert
/// and the value to read.
pub proof fn law_every_cell_is_drawn(g: Grid, row: int, e: int)
    requires
        g.valid(),
        0 <= row < g.layers@.len(),
        0 <= e < g.experts,
    ensures
        shows(
            g.drawn(),
            "<rect x=\""@ + decimal_of((62 + 13 * e) as nat) + "\" y=\""@ + decimal_of((62 + 13 * row) as nat)
                + "\" width=\"11\" height=\"11\" rx=\"2\" fill=\""@ + g.colours@[g.cells@[row]@[e].colour as int]@
                + "\"><title>layer "@ + decimal_of(g.layers@[row] as nat) + ", expert "@ + decimal_of(e as nat) + ": "@
                + g.cells@[row]@[e].value@ + "%</title></rect>\n"@,
        ),
{
    let cell = "<rect x=\""@ + decimal_of((62 + 13 * e) as nat) + "\" y=\""@ + decimal_of((62 + 13 * row) as nat)
        + "\" width=\"11\" height=\"11\" rx=\"2\" fill=\""@ + g.colours@[g.cells@[row]@[e].colour as int]@
        + "\"><title>layer "@ + decimal_of(g.layers@[row] as nat) + ", expert "@ + decimal_of(e as nat) + ": "@
        + g.cells@[row]@[e].value@ + "%</title></rect>\n"@;
    assert(g.cell_text(row, e) =~= cell);
    lemma_row_shows(g, row, g.experts as nat, e);
    lemma_rows_show(g, g.layers@.len(), row, cell);
    lemma_drawn_rows(g, cell);
}

/// Every fourth layer has its number beside its row.
pub proof fn law_layers_are_labelled(g: Grid, row: int)
    requires
        g.valid(),
        0 <= row < g.layers@.len(),
        g.layers@[row] % 4 == 0,
    ensures
        shows(
            g.drawn(),
            "<text x=\"54\" y=\""@ + decimal_of((71 + 13 * row) as nat)
                + "\" fill=\"#8892a2\" font-size=\"9.5\" text-anchor=\"end\">L"@ + decimal_of(g.layers@[row] as nat)
                + "</text>\n"@,
        ),
{
    let label = "<text x=\"54\" y=\""@ + decimal_of((71 + 13 * row) as nat)
        + "\" fill=\"#8892a2\" font-size=\"9.5\" text-anchor=\"end\">L"@ + decimal_of(g.layers@[row] as nat) + "</text>\n"@;
    assert(g.row_label(row) =~= label);
    lemma_shows_itself(label);
    lemma_rows_show(g, g.layers@.len(), row, label);
    lemma_drawn_rows(g, label);
}

proof fn lemma_columns_show(g: Grid, n: nat, e: nat)
    requires
        e < n,
        e % 8 == 0,
    ensures
        shows(g.columns_text(n), crate::svg::column_label(e)),
    decreases n,
{
    let label = crate::svg::column_label(e);
    let before = g.columns_text((n - 1) as nat);
    if e == n - 1 {
        lemma_shows_itself(label);
        lemma_shows_around(before, label, Seq::empty(), label);
    } else {
        lemma_columns_show(g, (n - 1) as nat, e);
        let last = if (n - 1) % 8 == 0 {
            crate::svg::column_label((n - 1) as nat)
        } else {
            Seq::empty()
        };
        lemma_shows_around(Seq::empty(), before, last, label);
    }
}

/// Every eighth expert has its number above the middle of its column.
pub proof fn law_experts_are_labelled(g: Grid, e: nat)
    requires
        g.valid(),
        e < g.experts,
        e % 8 == 0,
    ensures
        shows(
            g.drawn(),
            "<text x=\""@ + decimal_of(67 + 13 * e)
                + ".5\" y=\"54\" fill=\"#8892a2\" font-size=\"9.5\" text-anchor=\"middle\">"@ + decimal_of(e) + "</text>\n"@,
        ),
{
    reveal_strlit(".5");
    reveal_strlit("\" y=\"54\" fill=\"#8892a2\" font-size=\"9.5\" text-anchor=\"middle\">");
    reveal_strlit(".5\" y=\"54\" fill=\"#8892a2\" font-size=\"9.5\" text-anchor=\"middle\">");
    let label = "<text x=\""@ + decimal_of(67 + 13 * e)
        + ".5\" y=\"54\" fill=\"#8892a2\" font-size=\"9.5\" text-anchor=\"middle\">"@ + decimal_of(e) + "</text>\n"@;
    let n = 124 + e * 26 + 11;
    assert(n % 2 == 1 && n / 2 == 67 + 13 * e);
    assert(".5\" y=\"54\" fill=\"#8892a2\" font-size=\"9.5\" text-anchor=\"middle\">"@ =~= ".5"@
        + "\" y=\"54\" fill=\"#8892a2\" font-size=\"9.5\" text-anchor=\"middle\">"@);
    assert(crate::svg::column_label(e) =~= label);
    lemma_columns_show(g, g.experts as nat, e);
    lemma_drawn_columns(g, label);
}

/// A title that is given is the title; without one the model's name stands in it.
pub proof fn law_titles_name_the_model(model: Seq<char>, t: Seq<char>)
    ensures
        heat_title(model, Some(t)) == t,
        diff_title(model, Some(t)) == t,
        model.len() > 0 ==> heat_title(model, None) == "expert routing \u{2014} "@ + model,
        model.len() > 0 ==> diff_title(model, None) == "expert routing \u{2014} difference"@ + " \u{2014} "@ + model,
        model.len() == 0 ==> heat_title(model, None) == "expert routing"@,
        model.len() == 0 ==> diff_title(model, None) == "expert routing \u{2014} difference"@,
{
    reveal_strlit("");
    assert("expert routing \u{2014} difference"@ + (" \u{2014} "@ + model) =~= "expert routing \u{2014} difference"@
        + " \u{2014} "@ + model);
    assert("expert routing \u{2014} difference"@ + ""@ =~= "expert routing \u{2014} difference"@);
}

proof fn lemma_spaces(n: int)
    ensures
        spaces(n).len() == (if n < 0 {
            0
        } else {
            n
        }),
        forall|k: int| 0 <= k < n ==> #[trigger] spaces(n)[k] == ' ',
    decreases n,
{
    if n > 0 {
        lemma_spaces(n - 1);
        assert forall|k: int| 0 <= k < n implies #[trigger] spaces(n)[k] == ' ' by {
            if k < n - 1 {
                assert(spaces(n)[k] == spaces(n - 1)[k]);
            }
        }
    }
}

/// What is put in a column takes the column's width, the text at its left end or at its right
/// end and spaces beside it; what is wider keeps all of its characters.
pub proof fn law_columns_are_kept(s: Seq<char>, n: int)
    ensures
        s.len() <= n ==> filled(s, n).len() == n && indented(s, n).len() == n,
        filled(s, n).take(s.len() as int) == s,
        indented(s, n).skip(indented(s, n).len() - s.len()) == s,
        forall|k: int| s.len() <= k < n ==> #[trigger] filled(s, n)[k] == ' ',
        forall|k: int| 0 <= k < n - s.len() ==> #[trigger] indented(s, n)[k] == ' ',
        s.len() >= n ==> filled(s, n) == s && indented(s, n) == s,
{
    lemma_spaces(n - s.len());
    assert(filled(s, n).take(s.len() as int) =~= s);
    assert(indented(s, n).skip(indented(s, n).len() - s.len()) =~= s);
    assert forall|k: int| s.len() <= k < n implies #[trigger] filled(s, n)[k] == ' ' by {
        assert(filled(s, n)[k] == spaces(n - s.len())[k - s.len()]);
    }
    assert forall|k: int| 0 <= k < n - s.len() implies #[trigger] indented(s, n)[k] == ' ' by {
        assert(indented(s, n)[k] == spaces(n - s.len())[k]);
    }
    if s.len() >= n {
        assert(filled(s, n) =~= s);
        assert(indented(s, n) =~= s);
    }
}

/// The figures of a layer stand in the order of the columns: the layer, how even its choices
/// are, the peak, how many experts were never chosen, the busiest experts.
pub proof fn law_layer_lines_keep_their_order(c: Counts, l: u32, ids: Seq<u32>, t: LayerTextV)
    ensures
        layer_line(c, l, ids, t) == "  "@ + filled("L"@ + decimal_of(l as nat), 6) + " "@ + indented(t.entropy, 7) + " "@
            + indented(t.peak, 5) + "x "@ + indented(decimal_of(dead_below(c, l, (c.experts as u32) as nat)), 5) + "  "@
            + busiest(ids, t.shares, ids.len()) + "\n"@,
{
    assert(layer_line(c, l, ids, t) =~= "  "@ + filled("L"@ + decimal_of(l as nat), 6) + " "@ + indented(t.entropy, 7)
        + " "@ + indented(t.peak, 5) + "x "@ + indented(decimal_of(dead_below(c, l, (c.experts as u32) as nat)), 5) + "  "@
        + busiest(ids, t.shares, ids.len()) + "\n"@);
}

proof fn lemma_busiest_shows(ids: Seq<u32>, shares: Seq<Seq<char>>, n: nat, k: int)
    requires
        0 <= k < n <= ids.len(),
    ensures
        shows(busiest(ids, shares, n), "e"@ + decimal_of(ids[k] as nat) + ":"@ + shares[k] + "%"@),
    decreases n,
{
    let part = "e"@ + decimal_of(ids[k] as nat) + ":"@ + shares[k] + "%"@;
    let one = "e"@ + decimal_of(ids[n - 1] as nat) + (":"@ + shares[n - 1] + "%"@);
    let before = busiest(ids, shares, (n - 1) as nat);
    if k == n - 1 {
        assert(one =~= part);
        lemma_shows_itself(part);
        if n > 1 {
            lemma_shows_around(before + "  "@, one, Seq::empty(), part);
        }
    } else {
        lemma_busiest_shows(ids, shares, (n - 1) as nat, k);
        lemma_shows_around(Seq::empty(), before, "  "@, part);
        lemma_shows_around(Seq::empty(), before + "  "@, one, part);
    }
}

/// Each of the busiest experts is named in its layer's line, with its own share.
pub proof fn law_busiest_experts_are_named(c: Counts, l: u32, ids: Seq<u32>, t: LayerTextV, k: int)
    requires
        0 <= k < ids.len(),
    ensures
        shows(layer_line(c, l, ids, t), "e"@ + decimal_of(ids[k] as nat) + ":"@ + t.shares[k] + "%"@),
{
    let part = "e"@ + decimal_of(ids[k] as nat) + ":"@ + t.shares[k] + "%"@;
    let all = busiest(ids, t.shares, ids.len());
    lemma_busiest_shows(ids, t.shares, ids.len(), k);
    law_layer_lines_keep_their_order(c, l, ids, t);
    let before = "  "@ + filled("L"@ + decimal_of(l as nat), 6) + " "@ + indented(t.entropy, 7) + " "@ + indented(t.peak, 5)
        + "x "@ + indented(decimal_of(dead_below(c, l, (c.experts as u32) as nat)), 5) + "  "@;
    lemma_shows_around(before, all, "\n"@, part);
}

/// The line of a difference names the layer, the expert, by how much, and the run that favours
/// it.
pub proof fn law_favoured_runs_are_named(x: ExtremeV)
    ensures
        extreme_line(x) == "  "@ + filled("L"@ + decimal_of(x.layer as nat), 6) + " "@ + filled(
            "e"@ + decimal_of(x.expert as nat),
            7,
        ) + " "@ + indented(x.delta, 6) + "%  "@ + (if x.first {
            "first"@
        } else {
            "second"@
        }) + "\n"@,
{
    let side = if x.first {
        "first"@
    } else {
        "second"@
    };
    assert(extreme_line(x) =~= "  "@ + filled("L"@ + decimal_of(x.layer as nat), 6) + " "@ + filled(
        "e"@ + decimal_of(x.expert as nat),
        7,
    ) + " "@ + indented(x.delta, 6) + "%  "@ + side + "\n"@);
}

/// The heading counts tokens, routed layers, experts and the experts of each token, in this
/// order, behind the model's name where it has one.
pub proof fn law_headings_count(c: Counts, layers: nat)
    ensures
        ({
            let counts = decimal_of(c.tokens as nat) + " tokens, "@ + decimal_of(layers) + " routed layers, "@ + decimal_of(
                c.experts as nat,
            ) + " experts, top-"@ + decimal_of(c.top_k as nat) + "\n"@;
            &&& c.model@.len() == 0 ==> heading(c, layers) == counts
            &&& c.model@.len() > 0 ==> heading(c, layers) == c.model@ + ": "@ + counts
        }),
{
    let counts = decimal_of(c.tokens as nat) + " tokens, "@ + decimal_of(layers) + " routed layers, "@ + decimal_of(
        c.experts as nat,
    ) + " experts, top-"@ + decimal_of(c.top_k as nat) + "\n"@;
    let inner = decimal_of(c.tokens as nat) + (" tokens, "@ + decimal_of(layers) + (" routed layers, "@ + decimal_of(
        c.experts as nat,
    ) + (" experts, top-"@ + decimal_of(c.top_k as nat) + "\n"@)));
    assert(inner =~= counts);
    assert(Seq::<char>::empty() + inner =~= counts);
    assert(c.model@ + ": "@ + inner =~= c.model@ + ": "@ + counts);
}

} // verus!
