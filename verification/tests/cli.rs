//! The command line, and what it prints.

use moe::args::{bench_ids, eval_window, id_list, model_name, packed_name, pair_list, run_ctx, Args, Command};
use moe::json::{Json, Number};
use moe::model::{Route, Trace};
use moe::report::{Extreme, LayerText};
use moe::route::Diff;
use moe::text::{contains, count, decimal, last_part, parse_unsigned, signed, split_once, trim, word, Blank};
use moe::trace::{trace_header, trace_line};
use moe::{human, peak_rss, Counts};

fn args(s: &str) -> Args {
    Args::parse(&s.split_whitespace().map(str::to_string).collect())
}

#[test]
fn commands_are_told_apart() {
    for (line, want) in [
        ("", Command::Help),
        ("--version", Command::Version),
        ("run m --help", Command::Help),
        ("run", Command::NoModel),
        ("run m", Command::Run),
        ("chat m", Command::Chat),
        ("serve m", Command::Serve),
        ("pull a/b", Command::Pull),
        ("pack m", Command::Pack),
        ("info m", Command::Info),
        ("bench m", Command::Bench),
        ("tokenize m", Command::Tokenize),
        ("route m", Command::Route),
        ("route a.jsonl b.jsonl", Command::RouteTraces),
        ("eval m", Command::Eval),
        ("embed m", Command::Embed),
        ("dance m", Command::Unknown),
    ] {
        assert_eq!(args(line).command(), want, "{line}");
    }
}

#[test]
fn options_take_values_and_flags_do_not() {
    let a = args("run m -n 12 --temp=0.5 --stats prompt --ctx nine");
    assert_eq!((a.cmd.as_str(), a.pos.clone()), ("run", vec!["m".to_string(), "prompt".to_string()]));
    assert_eq!(a.num("tokens", 5), 12);
    assert_eq!(a.get("temp"), Some("0.5"));
    assert!(a.on("stats") && !a.on("json"));
    assert_eq!(a.given("ctx", 100), None);
    assert_eq!(a.num("ctx", 7), 7);
    assert_eq!(a.get("none"), None);
}

#[test]
fn lists_are_read() {
    assert_eq!(id_list("1, 2,x,3"), vec![1, 2, 3]);
    assert_eq!(pair_list("0:1, 2:3,4,5:x"), vec![(0, 1), (2, 3)]);
    assert!(id_list("").is_empty());
}

#[test]
fn names_come_from_paths() {
    assert_eq!(model_name("/models/OLMoE-1B/"), "OLMoE-1B");
    assert_eq!(model_name("org/name"), "name");
    assert_eq!(packed_name("/m/x.moe"), "x.moe");
    assert_eq!(packed_name("/m/x"), "x.moe");
}

#[test]
fn windows_have_their_defaults() {
    assert_eq!(run_ctx(None, 100_000, 10, 20), 4096);
    assert_eq!(run_ctx(None, 512, 10, 20), 512);
    assert_eq!(run_ctx(Some(16), 512, 10, 20), 30);
    assert_eq!(eval_window(None, None, 100_000), (2048, 1024));
    assert_eq!(eval_window(Some(1), Some(5), 10), (2, 5));
    assert_eq!(bench_ids(3, 20), vec![13, 0, 7]);
}

#[test]
fn sizes_read_well() {
    assert_eq!(human(0), "0 B");
    assert_eq!(human(1023), "1023 B");
    assert_eq!(human(1536), "1.50 KB");
    assert_eq!(human(1 << 20), "1.00 MB");
    assert_eq!(human(5_368_709_120), "5.00 GB");
    assert_eq!(human(u64::MAX), "16777216.00 TB");
    assert_eq!(peak_rss("Name:\tx\nVmHWM:\t   2048 kB\nVmRSS:\t 1 kB\n"), 2048 * 1024);
    assert_eq!(peak_rss("nothing"), 0);
}

#[test]
fn text_is_cut_and_counted() {
    assert_eq!(trim("  a b \n"), "a b");
    assert_eq!(word("\u{2003}one two"), "one");
    assert!(contains("abcabc", "cab") && !contains("abc", "ca"));
    assert_eq!(count("a/b/c", '/'), 2);
    assert_eq!(split_once("a:b:c", ":"), Some(("a".to_string(), "b:c".to_string())));
    assert_eq!(last_part("a/b/c", Blank::Slash), "c");
    assert_eq!((decimal(0), decimal(u64::MAX)), ("0".to_string(), u64::MAX.to_string()));
    assert_eq!(signed(i64::MIN), i64::MIN.to_string());
    assert_eq!(parse_unsigned("+42", 100), Some(42));
    assert_eq!(parse_unsigned("101", 100), None);
    assert_eq!(parse_unsigned("-1", 100), None);
}

/// Each decision of a trace is a line of JSON.
#[test]
fn trace_lines_are_written() {
    let w = |s: &str| Number::Float(s.parse::<f64>().unwrap().to_bits(), s.to_string());
    let r = Route { pos: 3, layer: 1, experts: vec![(2, 0.75f32.to_bits()), (0, 0.25f32.to_bits())] };
    let head = trace_header("m", 2, 4, 2);
    let line = trace_line(&r, &vec![w("0.75"), w("0.25")], Some(9), Some("a\"b"));
    assert_eq!(line.text(), r#"{"experts":[[2,0.75],[0,0.25]],"layer":1,"pos":3,"text":"a\"b","token":9}"#);
    assert_eq!(head.text(), r#"{"experts":4,"layers":2,"model":"m","top_k":2}"#);
    let c = Counts::from_trace(&Trace { tokens: vec![9], routes: vec![r] }, "m", 4, 2);
    assert_eq!(c.layers(), vec![1]);
    assert!(matches!(trace_line(&Route { pos: 0, layer: 0, experts: vec![] }, &vec![], None, None).field("token"), Json::Null));
}

fn counts(picks: &[(u32, u32)]) -> Counts {
    let routes = picks.iter().enumerate().map(|(i, (l, e))| Route { pos: i as u32, layer: *l, experts: vec![(*e, 0)] }).collect();
    Counts::from_trace(&Trace { tokens: vec![1; picks.len()], routes }, "m", 4, 1)
}

#[test]
fn reports_list_what_the_picture_shows() {
    let c = counts(&[(0, 1), (0, 1), (0, 2), (1, 3)]);
    let layer = |s: &[&str]| LayerText {
        entropy: "0.459".into(),
        peak: "2.67".into(),
        shares: s.iter().map(|x| x.to_string()).collect(),
    };
    let r = c.report(2, "37.5", "0.5", "2.0", &vec![layer(&["66.7", "33.3"]), layer(&["100.0"])]).unwrap();
    assert!(r.contains("37.5") && r.contains("66.7") && r.contains("100.0"), "{r}");
    assert_eq!(c.report(2, "", "", "", &Vec::new()), None);
    let d = Diff { a: counts(&[(0, 1)]), b: counts(&[(0, 2)]) };
    let e = |x: u32, s: &str, first: bool| Extreme { layer: 0, expert: x, delta: s.into(), first };
    let r = d.report("100.0", &vec![e(1, "+100.0", true), e(2, "-100.0", false)]);
    assert!(r.contains("+100.0") && r.contains("-100.0"), "{r}");
}
