//! What a config says of rotary scaling and attention windows.

use moe::float::Real;
use moe::json::Json;
use moe::parse::parse;
use moe::spec::{rope_of, windows_of, Rope, RopeKind};

fn doc(text: &str) -> Json {
    parse(text.as_bytes()).unwrap()
}

fn value(r: Real) -> f64 {
    match r {
        Real::Bits(b) => f64::from_bits(b),
        Real::Pos(n) => n as f64,
        Real::Neg(n) => n as f64,
    }
}

fn rope(cfg: Json) -> Rope {
    rope_of(&cfg, 4096)
}

fn named(key: &str, name: &str, factor: f64) -> Json {
    doc(&format!("{{\"rope_scaling\": {{\"{key}\": \"{name}\", \"factor\": {factor:?}}}}}"))
}

#[test]
fn a_config_with_no_scaling_scales_nothing() {
    let r = rope(doc(r#"{"rope_theta": 500000.0}"#));
    assert_eq!(r.kind, RopeKind::Plain);
    assert!((value(r.theta) - 500000.0).abs() < 1.0);
}

/// Every named scheme must be recognised, and a factor of 1 must disable all
/// of them however it is spelled.
#[test]
fn every_scheme_is_recognised() {
    for (name, kind) in [
        ("linear", RopeKind::Linear),
        ("dynamic", RopeKind::Dynamic),
        ("ntk", RopeKind::Dynamic),
        ("yarn", RopeKind::Yarn),
        ("llama3", RopeKind::Llama3),
    ] {
        let r = rope(named("rope_type", name, 4.0));
        assert_eq!(r.kind, kind, "{name}");
        assert!((value(r.factor) - 4.0).abs() < 1e-6);
        // Older configs spell the key `type`.
        let old = rope(named("type", name, 4.0));
        assert_eq!(old.kind, kind, "{name} under `type`");
        // A factor of 1 is not a stretch.
        let flat = rope(named("rope_type", name, 1.0));
        assert_eq!(flat.kind, RopeKind::Plain, "{name} with factor 1");
    }
    // A bare factor is the original interpolation paper.
    assert_eq!(rope(doc(r#"{"rope_scaling": {"factor": 2.0}}"#)).kind, RopeKind::Linear);
}

#[test]
fn a_config_without_a_window_attends_globally() {
    let w = windows_of(&doc(r#"{}"#), 4);
    assert_eq!(w, vec![None; 4]);
    // A zero window is not a window.
    assert_eq!(windows_of(&doc(r#"{"sliding_window": 0}"#), 3), vec![None; 3]);
}

#[test]
fn each_window_convention_is_read() {
    // A bare window applies everywhere.
    assert_eq!(windows_of(&doc(r#"{"sliding_window": 128}"#), 3), vec![Some(128); 3]);

    // An explicit list wins.
    let listed = doc(r#"{"sliding_window": 128,
        "layer_types": ["sliding_attention", "full_attention", "sliding_attention"]}"#);
    assert_eq!(windows_of(&listed, 3), vec![Some(128), None, Some(128)]);

    // A pattern makes every Nth layer global.
    let pattern = doc(r#"{"sliding_window": 64, "sliding_window_pattern": 4}"#);
    assert_eq!(windows_of(&pattern, 4), vec![Some(64), Some(64), Some(64), None]);

    // Qwen switches it on from a given depth.
    let qwen = doc(r#"{"sliding_window": 32, "use_sliding_window": true, "max_window_layers": 2}"#);
    assert_eq!(windows_of(&qwen, 4), vec![None, None, Some(32), Some(32)]);

    // ...and can decline it outright while still declaring the size.
    let off = doc(r#"{"sliding_window": 32, "use_sliding_window": false}"#);
    assert_eq!(windows_of(&off, 2), vec![None, None]);
}
