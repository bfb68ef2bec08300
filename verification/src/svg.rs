//! The routing picture: one cell per layer and expert.
//!
//! What a cell is worth decides its colour, and that is settled in floating point
//! elsewhere; here is where every cell, label and swatch goes.

use vstd::prelude::*;
use vstd::string::*;
use crate::route::{escape, escaped, half_text, halves, hundredth_text, hundredths, Counts, Diff};
use crate::text::{decimal, decimal_of, join, join3};

verus! {

/// A cell: which colour it has, and its value in words.
#[derive(Debug)]
pub struct Cell {
    pub colour: usize,
    pub value: String,
}

/// What is drawn.
pub struct Grid {
    pub title: String,
    pub subtitle: String,
    pub layers: Vec<u32>,
    pub experts: usize,
    pub colours: Vec<String>,
    /// What the lowest and the highest colour stand for.
    pub legend: (String, String),
    /// A row of cells for each layer.
    pub cells: Vec<Vec<Cell>>,
}

impl Grid {
    /// There is a cell for every layer and expert, every cell has a colour, and the
    /// swatches of the legend are of whole hundredths.
    pub open spec fn valid(self) -> bool {
        &&& self.cells@.len() == self.layers@.len()
        &&& forall|i: int| 0 <= i < self.cells@.len() ==> (#[trigger] self.cells@[i])@.len() == self.experts
        &&& forall|i: int, j: int|
            0 <= i < self.cells@.len() && 0 <= j < self.cells@[i]@.len() ==> (#[trigger] self.cells@[i]@[j]).colour
                < self.colours@.len()
        &&& self.colours@.len() > 0
        &&& 16800nat % self.colours@.len() == 0
        &&& self.experts <= u32::MAX
        &&& self.layers@.len() <= u32::MAX
    }

    /// The width of the picture.
    pub open spec fn wide(self) -> nat {
        (62 + self.experts * 13 + 20) as nat
    }

    /// The height of the picture.
    pub open spec fn high(self) -> nat {
        (62 + self.layers@.len() * 13 + 64) as nat
    }

    /// The cell of a layer and an expert.
    pub open spec fn cell_text(self, row: int, e: int) -> Seq<char> {
        let c = self.cells@[row]@[e];
        "<rect x=\""@ + decimal_of((62 + e * 13) as nat) + "\" y=\""@ + (decimal_of((62 + row * 13) as nat)
            + "\" width=\"11\" height=\"11\" rx=\"2\" fill=\""@ + self.colours@[c.colour as int]@) + (
        "\"><title>layer "@ + decimal_of(self.layers@[row] as nat) + ", expert "@) + (decimal_of(e as nat) + ": "@
            + c.value@) + "%</title></rect>\n"@
    }

    /// The first `n` cells of a row.
    pub open spec fn row_text(self, row: int, n: nat) -> Seq<char>
        decreases n,
    {
        if n == 0 {
            Seq::empty()
        } else {
            self.row_text(row, (n - 1) as nat) + self.cell_text(row, n - 1)
        }
    }

    /// The label of a row: every fourth layer has one.
    pub open spec fn row_label(self, row: int) -> Seq<char> {
        if self.layers@[row] % 4 == 0 {
            "<text x=\"54\" y=\""@ + decimal_of((62 + row * 13 + 9) as nat)
                + "\" fill=\"#8892a2\" font-size=\"9.5\" text-anchor=\"end\">L"@ + (decimal_of(
                self.layers@[row] as nat,
            ) + "</text>\n"@)
        } else {
            Seq::empty()
        }
    }

    /// The first `n` rows.
    pub open spec fn rows_text(self, n: nat) -> Seq<char>
        decreases n,
    {
        if n == 0 {
            Seq::empty()
        } else {
            self.rows_text((n - 1) as nat) + (self.row_label(n - 1) + self.row_text(n - 1, self.experts as nat))
        }
    }

    /// The labels of the columns: every eighth expert below `n` has one.
    pub open spec fn columns_text(self, n: nat) -> Seq<char>
        decreases n,
    {
        if n == 0 {
            Seq::empty()
        } else {
            self.columns_text((n - 1) as nat) + (if (n - 1) % 8 == 0 {
                column_label((n - 1) as nat)
            } else {
                Seq::empty()
            })
        }
    }

    /// The first `n` swatches of the legend. A ramp is unreadable without a scale.
    pub open spec fn swatches_text(self, n: nat) -> Seq<char>
        decreases n,
    {
        if n == 0 {
            Seq::empty()
        } else {
            let step = 16800int / self.colours@.len() as int;
            self.swatches_text((n - 1) as nat) + ("<rect x=\""@ + hundredths((6200 + (n - 1) * step) as nat)
                + "\" y=\""@ + (decimal_of((self.high() - 22) as nat) + "\" width=\""@ + hundredths(
                (step + 60) as nat,
            )) + ("\" height=\"9\" fill=\""@ + self.colours@[n - 1]@ + "\"/>\n"@))
        }
    }

    /// What stands before the cells.
    pub open spec fn head_text(self) -> Seq<char> {
        let w = decimal_of(self.wide());
        let h = decimal_of(self.high());
        "<svg xmlns=\"http://www.w3.org/2000/svg\" viewBox=\"0 0 "@ + w + " "@ + (h + "\" width=\""@ + w) + (
        "\" height=\""@ + h
            + "\" font-family=\"'SF Mono',Menlo,Consolas,monospace\">\n<rect width=\""@) + (w + "\" height=\""@ + h) + (
        "\" fill=\"#0d1117\"/>\n<text x=\"62\" y=\"26\" fill=\"#d6dde8\" font-size=\"13\" font-weight=\"600\">"@
            + escaped(self.title@)
            + "</text>\n<text x=\"62\" y=\"44\" fill=\"#8892a2\" font-size=\"11\">"@) + (escaped(self.subtitle@)
            + "</text>\n"@)
    }

    /// What stands after the columns' labels and before the legend.
    pub open spec fn axis_text(self) -> Seq<char> {
        "<text x=\""@ + halves((124 + self.experts * 13) as nat) + "\" y=\""@ + (decimal_of(
            (self.high() - 34) as nat,
        ) + "\" fill=\"#8892a2\" font-size=\"10\" text-anchor=\"middle\">expert</text>\n"@)
    }

    /// What stands after the swatches.
    pub open spec fn tail_text(self) -> Seq<char> {
        let y = decimal_of((self.high() - 14) as nat);
        "<text x=\"56\" y=\""@ + y + "\" fill=\"#8892a2\" font-size=\"9.5\" text-anchor=\"end\">"@ + (escaped(
            self.legend.0@,
        ) + "</text>\n<text x=\"236\" y=\""@ + y) + ("\" fill=\"#8892a2\" font-size=\"9.5\">"@ + escaped(
            self.legend.1@,
        ) + "</text>\n<rect x=\"62\" y=\""@) + (decimal_of((self.high() - 22) as nat)
            + "\" width=\"168\" height=\"9\" fill=\"none\" stroke=\"#1c2430\"/>\n</svg>\n"@)
    }

    /// The whole picture.
    pub open spec fn drawn(self) -> Seq<char> {
        self.head_text() + self.rows_text(self.layers@.len()) + self.columns_text(self.experts as nat) + (
        self.axis_text() + self.swatches_text(self.colours@.len()) + self.tail_text())
    }
}

/// The label of a column.
pub open spec fn column_label(e: nat) -> Seq<char> {
    "<text x=\""@ + halves(124 + e * 26 + 11) + "\" y=\"54\" fill=\"#8892a2\" font-size=\"9.5\" text-anchor=\"middle\">"@
        + (decimal_of(e) + "</text>\n"@)
}

fn draw_column_label(e: usize) -> (r: String)
    requires
        e <= u32::MAX,
    ensures
        r@ == column_label(e as nat),
{
    let a = join3(
        "<text x=\"",
        half_text(124 + e as u64 * 26 + 11).as_str(),
        "\" y=\"54\" fill=\"#8892a2\" font-size=\"9.5\" text-anchor=\"middle\">",
    );
    let b = join(decimal(e as u64).as_str(), "</text>\n");
    join(a.as_str(), b.as_str())
}

impl Grid {
    fn draw_cell(&self, row: usize, e: usize) -> (r: String)
        requires
            self.valid(),
            row < self.layers@.len(),
            e < self.experts,
        ensures
            r@ == self.cell_text(row as int, e as int),
    {
        assert(self.cells@[row as int]@.len() == self.experts);
        let c: &Cell = &self.cells[row][e];
        assert(self.cells@[row as int]@[e as int].colour < self.colours@.len());
        let a = join3("<rect x=\"", decimal(62 + e as u64 * 13).as_str(), "\" y=\"");
        let b = join3(
            decimal(62 + row as u64 * 13).as_str(),
            "\" width=\"11\" height=\"11\" rx=\"2\" fill=\"",
            self.colours[c.colour].as_str(),
        );
        let d = join3("\"><title>layer ", decimal(self.layers[row] as u64).as_str(), ", expert ");
        let f = join3(decimal(e as u64).as_str(), ": ", c.value.as_str());
        let g = join3(a.as_str(), b.as_str(), d.as_str());
        join3(g.as_str(), f.as_str(), "%</title></rect>\n")
    }

    fn draw_label(&self, row: usize) -> (r: String)
        requires
            self.valid(),
            row < self.layers@.len(),
        ensures
            r@ == self.row_label(row as int),
    {
        let l: u32 = self.layers[row];
        if l % 4 == 0 {
            let a = join3(
                "<text x=\"54\" y=\"",
                decimal(62 + row as u64 * 13 + 9).as_str(),
                "\" fill=\"#8892a2\" font-size=\"9.5\" text-anchor=\"end\">L",
            );
            let b = join(decimal(l as u64).as_str(), "</text>\n");
            join(a.as_str(), b.as_str())
        } else {
            let r = String::new();
            assert(r@ =~= Seq::empty());
            r
        }
    }

    fn draw_head(&self) -> (r: String)
        requires
            self.valid(),
        ensures
            r@ == self.head_text(),
    {
        let w = decimal(62 + self.experts as u64 * 13 + 20);
        let h = decimal(62 + self.layers.len() as u64 * 13 + 64);
        let a = join3("<svg xmlns=\"http://www.w3.org/2000/svg\" viewBox=\"0 0 ", w.as_str(), " ");
        let b = join3(h.as_str(), "\" width=\"", w.as_str());
        let c = join3(
            "\" height=\"",
            h.as_str(),
            "\" font-family=\"'SF Mono',Menlo,Consolas,monospace\">\n<rect width=\"",
        );
        let d = join3(w.as_str(), "\" height=\"", h.as_str());
        let e = join3(
            "\" fill=\"#0d1117\"/>\n<text x=\"62\" y=\"26\" fill=\"#d6dde8\" font-size=\"13\" font-weight=\"600\">",
            escape(self.title.as_str()).as_str(),
            "</text>\n<text x=\"62\" y=\"44\" fill=\"#8892a2\" font-size=\"11\">",
        );
        let f = join(escape(self.subtitle.as_str()).as_str(), "</text>\n");
        let x = join3(a.as_str(), b.as_str(), c.as_str());
        let y = join3(x.as_str(), d.as_str(), e.as_str());
        join(y.as_str(), f.as_str())
    }

    fn draw_axis(&self) -> (r: String)
        requires
            self.valid(),
        ensures
            r@ == self.axis_text(),
    {
        let h: u64 = 62 + self.layers.len() as u64 * 13 + 64;
        let a = join3("<text x=\"", half_text(124 + self.experts as u64 * 13).as_str(), "\" y=\"");
        let b = join(
            decimal(h - 34).as_str(),
            "\" fill=\"#8892a2\" font-size=\"10\" text-anchor=\"middle\">expert</text>\n",
        );
        join(a.as_str(), b.as_str())
    }

    fn draw_tail(&self) -> (r: String)
        requires
            self.valid(),
        ensures
            r@ == self.tail_text(),
    {
        let h: u64 = 62 + self.layers.len() as u64 * 13 + 64;
        let y = decimal(h - 14);
        let a = join3(
            "<text x=\"56\" y=\"",
            y.as_str(),
            "\" fill=\"#8892a2\" font-size=\"9.5\" text-anchor=\"end\">",
        );
        let b = join3(escape(self.legend.0.as_str()).as_str(), "</text>\n<text x=\"236\" y=\"", y.as_str());
        let c = join3(
            "\" fill=\"#8892a2\" font-size=\"9.5\">",
            escape(self.legend.1.as_str()).as_str(),
            "</text>\n<rect x=\"62\" y=\"",
        );
        let d = join(
            decimal(h - 22).as_str(),
            "\" width=\"168\" height=\"9\" fill=\"none\" stroke=\"#1c2430\"/>\n</svg>\n",
        );
        let x = join3(a.as_str(), b.as_str(), c.as_str());
        join(x.as_str(), d.as_str())
    }

    fn draw_swatch(&self, i: usize) -> (r: String)
        requires
            self.valid(),
            i < self.colours@.len(),
        ensures
            self.swatches_text((i + 1) as nat) == self.swatches_text(i as nat) + r@,
    {
        let h: u64 = 62 + self.layers.len() as u64 * 13 + 64;
        let n: u64 = self.colours.len() as u64;
        let step: u64 = 16800 / n;
        proof {
            assert(i * step < 16800) by (nonlinear_arith)
                requires
                    0 <= i < n,
                    step == 16800u64 / n,
                    n > 0,
            ;
        }
        let a = join3("<rect x=\"", hundredth_text(6200 + i as u64 * step).as_str(), "\" y=\"");
        let b = join3(decimal(h - 22).as_str(), "\" width=\"", hundredth_text(step + 60).as_str());
        let c = join3("\" height=\"9\" fill=\"", self.colours[i].as_str(), "\"/>\n");
        join3(a.as_str(), b.as_str(), c.as_str())
    }

    /// The picture as SVG.
    pub fn render(&self) -> (r: String)
        requires
            self.valid(),
        ensures
            r@ == self.drawn(),
    {
        let mut rows = String::new();
        let mut row: usize = 0;
        assert(rows@ =~= self.rows_text(0));
        while row < self.layers.len()
            invariant
                row <= self.layers@.len(),
                self.valid(),
                rows@ == self.rows_text(row as nat),
            decreases self.layers@.len() - row,
        {
            let mut line = String::new();
            let mut e: usize = 0;
            assert(line@ =~= self.row_text(row as int, 0));
            while e < self.experts
                invariant
                    e <= self.experts,
                    row < self.layers@.len(),
                    self.valid(),
                    line@ == self.row_text(row as int, e as nat),
                decreases self.experts - e,
            {
                line.append(self.draw_cell(row, e).as_str());
                e += 1;
            }
            let whole = join(self.draw_label(row).as_str(), line.as_str());
            rows.append(whole.as_str());
            row += 1;
        }
        let mut columns = String::new();
        let mut e: usize = 0;
        assert(columns@ =~= self.columns_text(0));
        while e < self.experts
            invariant
                e <= self.experts,
                self.valid(),
                columns@ == self.columns_text(e as nat),
            decreases self.experts - e,
        {
            if e % 8 == 0 {
                columns.append(draw_column_label(e).as_str());
            }
            e += 1;
            assert(columns@ =~= self.columns_text(e as nat));
        }
        let mut swatches = String::new();
        let mut i: usize = 0;
        assert(swatches@ =~= self.swatches_text(0));
        while i < self.colours.len()
            invariant
                i <= self.colours@.len(),
                self.valid(),
                swatches@ == self.swatches_text(i as nat),
            decreases self.colours@.len() - i,
        {
            swatches.append(self.draw_swatch(i).as_str());
            i += 1;
        }
        let a = join3(self.draw_head().as_str(), rows.as_str(), columns.as_str());
        let b = join3(self.draw_axis().as_str(), swatches.as_str(), self.draw_tail().as_str());
        join(a.as_str(), b.as_str())
    }
}

/// The title of one run's picture.
pub open spec fn heat_title(model: Seq<char>, title: Option<Seq<char>>) -> Seq<char> {
    match title {
        Some(t) => t,
        None => if model.len() == 0 {
            "expert routing"@
        } else {
            "expert routing \u{2014} "@ + model
        },
    }
}

/// The subtitle of one run's picture.
pub open spec fn heat_subtitle(c: Counts, layers: nat) -> Seq<char> {
    decimal_of(c.tokens as nat) + " tokens x "@ + decimal_of(layers) + (" layers, top-"@ + decimal_of(c.top_k as nat)
        + " of "@) + (decimal_of(c.experts as nat) + "; share of tokens selecting each expert"@)
}

/// The title of the picture of a difference.
pub open spec fn diff_title(model: Seq<char>, title: Option<Seq<char>>) -> Seq<char> {
    match title {
        Some(t) => t,
        None => if model.len() == 0 {
            "expert routing \u{2014} difference"@ + ""@
        } else {
            "expert routing \u{2014} difference"@ + (" \u{2014} "@ + model)
        },
    }
}

/// The subtitle of the picture of a difference.
pub open spec fn diff_subtitle(d: Diff, first: Seq<char>, second: Seq<char>) -> Seq<char> {
    first + " ("@ + decimal_of(d.a.tokens as nat) + (" tokens) vs "@ + second + " ("@) + (decimal_of(
        d.b.tokens as nat,
    ) + " tokens); amber favours the first, teal the second"@)
}

/// What an optional text holds.
pub open spec fn title_of(t: Option<&str>) -> Option<Seq<char>> {
    match t {
        Some(s) => Some(s@),
        None => None,
    }
}

/// One run as a heatmap: share of tokens selecting each expert in each layer.
pub fn heatmap(c: &Counts, title: Option<&str>, colours: Vec<String>, legend: (String, String), cells: Vec<Vec<Cell>>) -> (
    g: Grid)
    requires
        c.valid(),
    ensures
        g.title@ == heat_title(c.model@, title_of(title)),
        g.subtitle@ == heat_subtitle(*c, g.layers@.len()),
        g.experts == c.experts,
        forall|i: int, j: int| 0 <= i < j < g.layers@.len() ==> g.layers@[i] < g.layers@[j],
        forall|l: u32| #[trigger] g.layers@.contains(l) <==> exists|e: u32| c.count_in(l, e) > 0,
        g.colours == colours,
        g.legend == legend,
        g.cells == cells,
{
    let layers: Vec<u32> = c.layers();
    let name: String = match title {
        Some(t) => t.to_owned(),
        None => if c.model.as_str().is_empty() {
            "expert routing".to_owned()
        } else {
            join("expert routing \u{2014} ", c.model.as_str())
        },
    };
    let a = join3(decimal(c.tokens as u64).as_str(), " tokens x ", decimal(layers.len() as u64).as_str());
    let b = join3(" layers, top-", decimal(c.top_k as u64).as_str(), " of ");
    let d = join(decimal(c.experts as u64).as_str(), "; share of tokens selecting each expert");
    Grid {
        title: name,
        subtitle: join3(a.as_str(), b.as_str(), d.as_str()),
        layers,
        experts: c.experts,
        colours,
        legend,
        cells,
    }
}

/// Two runs as their difference: amber favours the first, teal the second.
pub fn diffmap(
    d: &Diff,
    labels: (&str, &str),
    title: Option<&str>,
    colours: Vec<String>,
    legend: (String, String),
    cells: Vec<Vec<Cell>>,
) -> (g: Grid)
    requires
        d.a.valid(),
        d.b.valid(),
    ensures
        g.title@ == diff_title(d.a.model@, title_of(title)),
        g.subtitle@ == diff_subtitle(*d, labels.0@, labels.1@),
        g.experts == (if d.a.experts > d.b.experts {
            d.a.experts
        } else {
            d.b.experts
        }),
        forall|i: int, j: int| 0 <= i < j < g.layers@.len() ==> g.layers@[i] < g.layers@[j],
        forall|l: u32| #[trigger]
            g.layers@.contains(l) <==> (exists|e: u32| d.a.count_in(l, e) > 0) || (exists|e: u32|
                d.b.count_in(l, e) > 0),
        g.colours == colours,
        g.legend == legend,
        g.cells == cells,
{
    let name: String = match title {
        Some(t) => t.to_owned(),
        None => {
            let model: String = if d.a.model.as_str().is_empty() {
                "".to_owned()
            } else {
                join(" \u{2014} ", d.a.model.as_str())
            };
            join("expert routing \u{2014} difference", model.as_str())
        },
    };
    let a = join3(labels.0, " (", decimal(d.a.tokens as u64).as_str());
    let b = join3(" tokens) vs ", labels.1, " (");
    let c = join(
        decimal(d.b.tokens as u64).as_str(),
        " tokens); amber favours the first, teal the second",
    );
    Grid {
        title: name,
        subtitle: join3(a.as_str(), b.as_str(), c.as_str()),
        layers: d.layers(),
        experts: d.experts(),
        colours,
        legend,
        cells,
    }
}

} // verus!
