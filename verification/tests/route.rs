//! Routing statistics over traces.

use moe::gate::{select, window_start};
use moe::json::{Json, Number};
use moe::model::{Route, Trace};
use moe::report::{Extreme, LayerText};
use moe::route::Diff;
use moe::svg::{diffmap, heatmap, Cell};
use moe::trace::{trace_header, trace_line};
use moe::Counts;

fn trace(routes: &[(u32, u32, &[u32])]) -> Trace {
    Trace {
        tokens: Vec::new(),
        routes: routes
            .iter()
            .map(|(pos, layer, experts)| Route {
                pos: *pos,
                layer: *layer,
                experts: experts.iter().map(|e| (*e, 0.5f32.to_bits())).collect(),
            })
            .collect(),
    }
}

fn share(c: &Counts, layer: u32, expert: u32) -> f32 {
    let (n, of) = c.share(layer, expert);
    n as f32 / of as f32
}

fn entropy(c: &Counts, layer: u32) -> f32 {
    let counts = c.layer_counts(layer);
    let total: u64 = counts.iter().sum();
    let h: f32 = counts
        .iter()
        .filter(|n| **n > 0)
        .map(|n| {
            let p = *n as f32 / total as f32;
            -p * p.ln()
        })
        .sum();
    h / (c.experts as f32).ln()
}

fn peak_ratio(c: &Counts, layer: u32) -> f32 {
    let (peak, total) = c.peak(layer);
    peak as f32 * c.experts as f32 / total as f32
}

#[test]
fn counts_shares_and_layers() {
    let c = Counts::from_trace(&trace(&[(0, 0, &[1, 2]), (1, 0, &[1, 3]), (0, 1, &[0, 1])]), "m", 4, 2);
    assert_eq!(c.tokens, 2);
    assert_eq!(c.layers(), vec![0, 1]);
    assert_eq!(c.count(0, 1), 2);
    assert!((share(&c, 0, 1) - 1.0).abs() < 1e-6);
    assert!((share(&c, 0, 2) - 0.5).abs() < 1e-6);
    assert_eq!(c.count(0, 0), 0);
}

/// A uniform layer must score entropy 1 and peak 1; a degenerate one, 0 and n.
#[test]
fn entropy_brackets_are_tight() {
    let even = Counts::from_trace(&trace(&[(0, 0, &[0, 1]), (1, 0, &[2, 3])]), "m", 4, 2);
    assert!((entropy(&even, 0) - 1.0).abs() < 1e-5, "{}", entropy(&even, 0));
    assert!((peak_ratio(&even, 0) - 1.0).abs() < 1e-5);
    assert_eq!(even.dead(0), 0);

    let one = Counts::from_trace(&trace(&[(0, 0, &[2]), (1, 0, &[2])]), "m", 4, 1);
    assert!(entropy(&one, 0) < 1e-6);
    assert!((peak_ratio(&one, 0) - 4.0).abs() < 1e-5);
    assert_eq!(one.dead(0), 3);
}

/// A signed share, as a number.
fn shift(d: &Diff, layer: u32, expert: u32) -> f32 {
    let (first, size, whole) = d.share(layer, expert);
    let x = size as f32 / whole as f32;
    if first {
        x
    } else {
        -x
    }
}

#[test]
fn diff_is_signed_and_finds_extremes() {
    let a = Counts::from_trace(&trace(&[(0, 0, &[0])]), "m", 4, 1);
    let b = Counts::from_trace(&trace(&[(0, 0, &[1])]), "m", 4, 1);
    let d = Diff { a, b };
    assert!((shift(&d, 0, 0) - 1.0).abs() < 1e-6);
    assert!((shift(&d, 0, 1) + 1.0).abs() < 1e-6);
    let (size, whole) = d.span();
    assert!((size as f32 / whole as f32 - 1.0).abs() < 1e-6);
    assert_eq!(d.extremes(2).len(), 2);
}

/// The widest come first, and no more than are asked for.
#[test]
fn extremes_are_ranked() {
    let a = Counts::from_trace(&trace(&[(0, 0, &[0, 1]), (1, 0, &[0, 2]), (2, 0, &[0, 1])]), "m", 4, 2);
    let b = Counts::from_trace(&trace(&[(0, 0, &[0, 3]), (1, 0, &[2, 3])]), "m", 4, 2);
    let d = Diff { a, b };
    // Over 3 and 2 tokens: expert 0 3/3 - 1/2, 1 2/3 - 0, 2 1/3 - 1/2, 3 0 - 2/2.
    let all: Vec<(u32, bool, u128)> = d.extremes(9).iter().map(|g| (g.expert, g.first, g.size)).collect();
    assert_eq!(all, vec![(3, false, 6), (1, true, 4), (0, true, 3), (2, false, 1)]);
    assert_eq!(d.span(), (6, 6));
    assert_eq!(d.extremes(2).iter().map(|g| g.expert).collect::<Vec<_>>(), vec![3, 1]);
    assert!(d.extremes(0).is_empty());
}

#[test]
fn coverage_counts_touched_pairs() {
    // 2 layers x 4 experts = 8 pairs; 3 distinct pairs touched.
    let c = Counts::from_trace(&trace(&[(0, 0, &[0, 1]), (0, 1, &[0])]), "m", 4, 2);
    let (touched, layers, experts) = c.coverage();
    assert!((touched as f32 / (layers * experts) as f32 - 3.0 / 8.0).abs() < 1e-6);
}

fn cells(layers: usize, experts: usize) -> Vec<Vec<Cell>> {
    (0..layers).map(|_| (0..experts).map(|e| Cell { colour: e % 2, value: "50%".to_string() }).collect()).collect()
}

fn colours() -> Vec<String> {
    vec!["#000000".to_string(), "#ffffff".to_string()]
}

#[test]
fn heatmap_is_wellformed_svg() {
    let c = Counts::from_trace(&trace(&[(0, 0, &[0, 1]), (1, 0, &[1, 2])]), "test", 4, 2);
    let s = heatmap(&c, None, colours(), ("0%".to_string(), "50%".to_string()), cells(1, 4)).render();
    assert!(s.starts_with("<svg"));
    assert!(s.trim_end().ends_with("</svg>"));
    // One cell per (layer, expert), plus the legend swatches.
    assert_eq!(s.matches("<title>").count(), 4);
}

#[test]
fn a_difference_covers_both_runs() {
    let a = Counts::from_trace(&trace(&[(0, 0, &[0])]), "m", 4, 1);
    let b = Counts::from_trace(&trace(&[(0, 2, &[1])]), "m", 3, 1);
    let d = Diff { a, b };
    assert_eq!(d.layers(), vec![0, 2]);
    assert_eq!(d.experts(), 4);
    let g = diffmap(&d, ("<a>", "b"), Some("x & y"), colours(), ("-1%".to_string(), "+1%".to_string()), cells(2, 4));
    let s = g.render();
    assert!(s.contains("x &amp; y") && s.contains("&lt;a&gt;"), "{s}");
    let text = d.report(
        "+100.0",
        &vec![Extreme { layer: 0, expert: 3, delta: "+25.0".to_string(), first: true }],
    );
    assert_eq!(
        text,
        "difference over 2 routed layers x 4 experts (first 1 tokens, second 1 tokens)\nwidest divergence +100.0%\n\n  layer  expert  delta   favours\n  L0     e3       +25.0%  first\n"
    );
}

#[test]
fn a_report_lists_the_busiest_experts() {
    let c = Counts::from_trace(&trace(&[(0, 0, &[1, 2]), (1, 0, &[1, 3])]), "m", 4, 2);
    let figures = vec![LayerText {
        entropy: "0.75".to_string(),
        peak: "2.0".to_string(),
        shares: vec!["100".to_string(), "50".to_string()],
    }];
    assert_eq!(
        c.report(2, "75", "0.75", "2.0", &figures).unwrap(),
        "m: 2 tokens, 1 routed layers, 4 experts, top-2\ncoverage 75% of (layer, expert) pairs touched   mean entropy 0.75   mean peak/uniform 2.0x\n\n  layer  entropy  peak  dead  busiest experts\n  L0        0.75   2.0x     1  e1:100%  e2:50%\n"
    );
    // Figures that do not fit the trace give no report.
    assert!(c.report(2, "", "", "", &Vec::new()).is_none());
}

/// The busiest experts come first, and pruning keeps as many in every layer.
#[test]
fn pruning_keeps_the_busiest() {
    let c = Counts::from_trace(&trace(&[(0, 0, &[3, 1]), (1, 0, &[3, 2]), (0, 1, &[0])]), "m", 4, 1);
    assert_eq!(c.hottest(), vec![(0, 3), (0, 1), (0, 2), (1, 0)]);
    assert_eq!(c.top(0, 2), vec![(3, 2), (1, 1)]);
    let p = c.prune_plan(2, 2, 1);
    assert_eq!(p.keep, vec![vec![1, 3], vec![0, 1]]);
    assert_eq!(p.width(), 2);
    assert_eq!(p.top_k, 1);
    assert!(!c.is_empty());
}

/// A trace written as lines reads back with the same counts.
#[test]
fn traces_read_back() {
    let t = trace(&[(0, 0, &[1, 2]), (1, 0, &[1, 3]), (0, 1, &[0, 1])]);
    let mut lines: Vec<Json> = vec![trace_header("m", 2, 4, 2)];
    for r in &t.routes {
        let w = r.experts.iter().map(|_| Number::Float(0.5f64.to_bits(), "0.5".to_string())).collect();
        lines.push(trace_line(r, &w, Some(7), Some("x")));
    }
    assert_eq!(lines[0].text(), r#"{"experts":4,"layers":2,"model":"m","top_k":2}"#);
    assert_eq!(lines[1].text(), r#"{"experts":[[1,0.5],[2,0.5]],"layer":0,"pos":0,"text":"x","token":7}"#);
    let mut written: Vec<String> = lines.iter().map(|l| l.text()).collect();
    let a = Counts::from_lines(&lines);
    // What is blank or no JSON is passed over.
    written.insert(1, "  ".to_string());
    written.insert(2, "{not json".to_string());
    let read = Counts::read(&written);
    assert_eq!((read.model.as_str(), read.experts, read.top_k, read.tokens), ("m", 4, 2, 2));
    assert_eq!((read.count(0, 1), read.count(1, 0), read.count(0, 0)), (2, 1, 0));
    let b = Counts::from_trace(&t, "m", 4, 2);
    assert_eq!((a.model.as_str(), a.experts, a.top_k, a.tokens), ("m", 4, 2, 2));
    for l in 0..3 {
        for e in 0..5 {
            assert_eq!(a.count(l, e), b.count(l, e));
        }
    }
    // Without a header the experts are those that are shown.
    let bare = Counts::from_lines(&vec![trace_line(&t.routes[0], &vec![Number::Pos(1), Number::Pos(0)], None, None)]);
    assert_eq!(bare.experts, 3);
}

/// Pruning to the experts that are used gives a token the same ones.
#[test]
fn pruning_to_the_used_experts_keeps_the_choice() {
    let keys = vec![5u32, 9, 1, 7, 9, 3];
    let none = Vec::new();
    let all = select(&keys, &none, &none, 3);
    assert_eq!(all, vec![1, 4, 3]);
    let kept = [0usize, 1, 3, 4];
    let left: Vec<u32> = kept.iter().map(|e| keys[*e]).collect();
    let fewer: Vec<usize> = select(&left, &none, &none, 3).into_iter().map(|j| kept[j]).collect();
    assert_eq!(fewer, all);
}

/// A window shows as many positions as it is wide; a wide one is no window.
#[test]
fn windows_show_their_width() {
    assert_eq!(window_start(9, Some(4)), 6);
    assert_eq!(window_start(9, Some(1)), 9);
    assert_eq!(window_start(9, Some(10)), window_start(9, None));
    assert_eq!(window_start(2, Some(100)), 0);
}

/// A plan as wide as the widest layer keeps every expert that was selected.
#[test]
fn what_was_selected_is_kept() {
    let t = trace(&[(0, 0, &[1, 5]), (1, 0, &[2, 5]), (0, 1, &[4, 0]), (1, 1, &[4, 0])]);
    let c = Counts::from_trace(&t, "m", 6, 2);
    assert_eq!(c.widest(), 3);
    let plan = c.prune_plan(2, c.widest(), 2);
    assert_eq!(plan.keep[0], vec![1, 2, 5]);
    assert!(plan.keep[1].contains(&0) && plan.keep[1].contains(&4));
}
