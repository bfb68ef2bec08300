//! Chat templates: what renders, what is refused, and how deep things may nest.

use moe::chat_eval::{Ask, Fact, Halt};
use moe::json::{Json, Number};
use moe::Template;
use serde_json::Value;

fn json(v: &Value) -> Json {
    match v {
        Value::Null => Json::Null,
        Value::Bool(b) => Json::Bool(*b),
        Value::Number(n) => Json::Num(number(n)),
        Value::String(s) => Json::Str(s.clone()),
        Value::Array(a) => Json::Arr(a.iter().map(json).collect()),
        Value::Object(m) => Json::Obj(m.iter().map(|(k, v)| (k.clone(), json(v))).collect()),
    }
}

fn number(n: &serde_json::Number) -> Number {
    if let Some(u) = n.as_u64() {
        Number::Pos(u)
    } else if let Some(i) = n.as_i64() {
        Number::Neg(i)
    } else {
        Number::Float(n.as_f64().unwrap().to_bits(), n.to_string())
    }
}

fn float(n: &Number) -> f64 {
    match n {
        Number::Pos(u) => *u as f64,
        Number::Neg(i) => *i as f64,
        Number::Float(b, _) => f64::from_bits(*b),
    }
}

/// The arithmetic that a template leaves open.
fn answer(ask: &Ask) -> Json {
    match ask {
        Ask::Sum(a, b) => json(&Value::from(float(a) + float(b))),
        Ask::Difference(a, b) => json(&Value::from(float(a) - float(b))),
        Ask::Order(a, b) => {
            let (x, y) = (float(a), float(b));
            json(&Value::from(if x < y {
                -1i64
            } else if x > y {
                1
            } else {
                0
            }))
        }
        Ask::Negation(a) => json(&Value::from(-float(a))),
        Ask::Whole(a) => json(&Value::from(float(a) as i64)),
        Ask::WholeText(t) => json(&Value::from(t.parse::<f64>().unwrap_or(0.0) as i64)),
        Ask::Literal(t) => json(&Value::from(t.parse::<f64>().unwrap_or(0.0))),
    }
}

fn try_render(t: &Template, m: &Vec<Json>, gen: bool, bos: &str, eos: &str) -> Result<String, String> {
    let mut facts: Vec<Fact> = Vec::new();
    loop {
        match t.render(m, gen, bos, eos, &facts) {
            Ok(s) => return Ok(s),
            Err(Halt::Error(e)) => return Err(e),
            Err(Halt::Need(ask)) => {
                let answer = answer(&ask);
                facts.push(Fact { ask, answer });
            }
        }
    }
}

fn msgs(pairs: &[(&str, &str)]) -> Vec<Json> {
    pairs
        .iter()
        .map(|(r, c)| {
            Json::Obj(vec![
                ("content".to_string(), Json::Str(c.to_string())),
                ("role".to_string(), Json::Str(r.to_string())),
            ])
        })
        .collect()
}

fn render(src: &str, m: &[(&str, &str)], gen: bool) -> String {
    try_render(&Template::parse(src).expect("parse"), &msgs(m), gen, "<s>", "</s>").expect("render")
}

#[test]
fn text_passes_through_untouched() {
    assert_eq!(render("hello", &[], false), "hello");
    assert_eq!(render("a{# comment #}b", &[], false), "ab");
}

#[test]
fn expressions_interpolate() {
    assert_eq!(render("{{ 'x' }}", &[], false), "x");
    assert_eq!(render("{{ bos_token }}", &[], false), "<s>");
    assert_eq!(render("{{ 'a' + 'b' }}", &[], false), "ab");
    assert_eq!(render("{{ 'a' ~ 1 }}", &[], false), "a1");
    assert_eq!(render("{{ messages | length }}", &[("user", "hi"), ("user", "yo")], false), "2");
    assert_eq!(render("{{ messages[0]['role'] }}", &[("user", "hi")], false), "user");
    assert_eq!(render("{{ messages[0].content }}", &[("user", "hi")], false), "hi");
    assert_eq!(render("{{ messages[-1].content }}", &[("a", "1"), ("b", "2")], false), "2");
    assert_eq!(render("{{ '  pad  ' | trim }}", &[], false), "pad");
}

#[test]
fn conditionals_pick_a_branch() {
    assert_eq!(render("{% if true %}y{% else %}n{% endif %}", &[], false), "y");
    assert_eq!(render("{% if false %}y{% else %}n{% endif %}", &[], false), "n");
    assert_eq!(render("{% if 0 %}y{% elif 1 %}e{% else %}n{% endif %}", &[], false), "e");
    assert_eq!(render("{% if not false %}y{% endif %}", &[], false), "y");
    assert_eq!(render("{{ 'y' if add_generation_prompt else 'n' }}", &[], true), "y");
    assert_eq!(render("{{ 'y' if add_generation_prompt else 'n' }}", &[], false), "n");
    // Undefined names are falsy rather than an error.
    assert_eq!(render("{% if tools %}t{% else %}none{% endif %}", &[], false), "none");
    assert_eq!(render("{% if nothing is defined %}d{% else %}u{% endif %}", &[], false), "u");
}

#[test]
fn loops_expose_position() {
    let src = "{% for m in messages %}{{ loop.index0 }}:{{ m.role }}{% if not loop.last %},{% endif %}{% endfor %}";
    assert_eq!(render(src, &[("a", "1"), ("b", "2"), ("c", "3")], false), "0:a,1:b,2:c");
    assert_eq!(render("{% for m in messages %}x{% endfor %}", &[], false), "");
    // `loop` and the variable are scoped to the loop.
    assert_eq!(render("{% for m in messages %}{% endfor %}{{ m }}{{ loop }}", &[("a", "1")], false), "");
}

#[test]
fn set_binds_a_name() {
    assert_eq!(render("{% set x = 'v' %}{{ x }}", &[], false), "v");
    assert_eq!(render("{% set n = messages | length %}{{ n }}", &[("a", "1")], false), "1");
}

/// `{%-` and `-%}` are load-bearing in real templates: without them the
/// prompt gains newlines the model was never trained on.
#[test]
fn whitespace_control_strips_the_right_side() {
    assert_eq!(render("a\n  {{- 'x' }}", &[], false), "ax");
    assert_eq!(render("{{ 'x' -}}\n  b", &[], false), "xb");
    assert_eq!(render("a\n{% if true %}\nb{% endif %}", &[], false), "a\n\nb");
    assert_eq!(render("a\n{%- if true %}b{% endif %}", &[], false), "ab");
}

/// The three built-in formats, expressed as the
/// templates their checkpoints actually ship. Matching the built-in output
/// exactly is the point: the template path must be a strict improvement.
#[test]
fn chatml_renders_as_the_builtin_did() {
    let src = "{% for message in messages %}{{'<|im_start|>' + message['role'] + '\\n' + \
               message['content'] + '<|im_end|>' + '\\n'}}{% endfor %}\
               {% if add_generation_prompt %}{{ '<|im_start|>assistant\\n' }}{% endif %}";
    let got = render(src, &[("system", "S"), ("user", "U")], true);
    assert_eq!(got, "<|im_start|>system\nS<|im_end|>\n<|im_start|>user\nU<|im_end|>\n<|im_start|>assistant\n");
}

#[test]
fn a_llama3_shaped_template_renders() {
    let src = "{{ bos_token }}{% for message in messages %}\
               {{ '<|start_header_id|>' + message['role'] + '<|end_header_id|>\\n\\n' + \
               message['content'] | trim + '<|eot_id|>' }}{% endfor %}\
               {% if add_generation_prompt %}{{ '<|start_header_id|>assistant<|end_header_id|>\\n\\n' }}{% endif %}";
    let got = render(src, &[("user", " hi ")], true);
    assert_eq!(
        got,
        "<s><|start_header_id|>user<|end_header_id|>\n\nhi<|eot_id|><|start_header_id|>assistant<|end_header_id|>\n\n"
    );
}

/// Mistral folds the system message into the first user turn, which is
/// exactly the sort of per-checkpoint detail a three-way guess cannot know.
#[test]
fn a_mistral_shaped_template_folds_the_system_turn() {
    let src = "{{ bos_token }}{% for message in messages %}\
               {% if message['role'] == 'user' %}{{ '[INST] ' + message['content'] + ' [/INST]' }}\
               {% elif message['role'] == 'assistant' %}{{ message['content'] + eos_token }}\
               {% endif %}{% endfor %}";
    let got = render(src, &[("user", "U"), ("assistant", "A"), ("user", "V")], false);
    assert_eq!(got, "<s>[INST] U [/INST]A</s>[INST] V [/INST]");
}

/// A template that loops with an index and a lookahead — the shape Qwen and
/// several others use to decide whether to open an assistant turn.
#[test]
fn indexed_lookahead_works() {
    let src = "{% for i in messages %}{{ i.role }}{% endfor %}\
               {% if messages[-1]['role'] != 'assistant' %}|open{% endif %}";
    assert_eq!(render(src, &[("user", "a")], false), "user|open");
    assert_eq!(render(src, &[("user", "a"), ("assistant", "b")], false), "userassistant");
}

#[test]
fn nested_structures_compose() {
    let src = "{% for m in messages %}{% if m.role == 'user' %}[{% for c in m.content %}{{ c }}{% endfor %}]\
               {% endif %}{% endfor %}";
    assert_eq!(render(src, &[("user", "ab")], false), "[ab]");
}

/// What the engine cannot render must be an error, so the caller falls back
/// to detection rather than emitting a mangled prompt.
#[test]
fn the_unsupported_is_refused_not_guessed() {
    for src in [
        "{% macro x() %}{% endmacro %}",
        "{{ messages | selectattr('role') }}",
        "{% for a, b in items %}{% endfor %}",
        "{{ unclosed ",
        "{% if true %}no end",
        "{% for m in messages %}no end",
        "{{ 'a' ** 'b' }}",
        "{{ x is weird }}",
        "{% if true %}a{% else %}b",
    ] {
        let r = Template::parse(src).and_then(|t| try_render(&t, &msgs(&[("user", "u")]), true, "", ""));
        assert!(r.is_err(), "should have refused: {src:?} -> {r:?}");
    }
}

/// What is left open, or says more than the subset knows, is refused when it is parsed.
#[test]
fn what_is_beyond_the_subset_does_not_parse() {
    for (src, why) in [
        ("{% if true %}a{% else %}b", "unclosed {% if %}"),
        ("{% if true %}a{% else %}b{% if c %}d{% endif %}", "unclosed {% if %}"),
        ("{% if a %}x{% elif b %}y{% else %}z", "unclosed {% if %}"),
        ("{% if true %}no end", "unclosed {% if %}"),
        ("{% if a %}x{% else if b %}y{% endif %}", "unsupported tag: {% else if b %}"),
        ("{% for m in messages %}x{% else %}y{% endfor %}", "unclosed {% for %}"),
        ("{% for m in messages if m.role == 'user' %}{{ m.content }}{% endfor %}", "{% for %} with `if` is not supported"),
        ("{% for m in a if b else c %}{% endfor %}", "{% for %} with `if` is not supported"),
        ("{% for m.x in messages %}{% endfor %}", "{% for %} without a name"),
        ("{% set a.b = 'v' %}", "{% set %} without a name"),
        ("{% set true = 'v' %}", "{% set %} without a name"),
    ] {
        assert_eq!(Template::parse(src).err().as_deref(), Some(why), "{src}");
    }
    // In brackets a conditional is an expression like any other.
    let t = Template::parse("{% for m in (messages if true else none) %}{{ m.role }}{% endfor %}").unwrap();
    assert_eq!(try_render(&t, &msgs(&[("user", "u")]), true, "", "").unwrap(), "user");
    let t = Template::parse("{% if false %}a{% else %}b{% endif %}c").unwrap();
    assert_eq!(try_render(&t, &Vec::new(), true, "", "").unwrap(), "bc");
}

/// Letters are put in lower and upper case, and whitespace is trimmed, as Unicode has them.
#[test]
fn letters_and_blanks_follow_unicode() {
    let shown = |src: &str| try_render(&Template::parse(src).unwrap(), &Vec::new(), true, "", "").unwrap();
    assert_eq!(shown("{{ 'aZ9-' | upper }}{{ 'aZ9-' | lower }}"), "AZ9-az9-");
    assert_eq!(shown("{{ 'stra\u{df}e' | upper }}{{ '\u{c9}' | lower }}"), "STRASSE\u{e9}");
    assert_eq!(moe::text::trim(" \u{b}\u{85}\u{a0}\u{2003}x\u{200b}\u{3000}\u{2029}\t"), "x\u{200b}");
}

/// A template must not be able to spin forever or recurse without bound.
#[test]
fn chat_depth_is_bounded() {
    let deep = "{% if true %}".repeat(40) + &"{% endif %}".repeat(40);
    let t = Template::parse(&deep).expect("parse");
    assert!(try_render(&t, &Vec::new(), false, "", "").is_err(), "deep nesting was not refused");
}

/// Arithmetic in a template is answered from outside, one question at a time.
#[test]
fn arithmetic_is_asked_for() {
    assert_eq!(render("{{ 1 + 2 }}", &[], false), "3.0");
    assert_eq!(render("{{ 1.5 - 1 }}", &[], false), "0.5");
    assert_eq!(render("{{ '7' | int }}", &[], false), "7");
    assert_eq!(render("{% if 2 > 1.5 %}y{% else %}n{% endif %}", &[], false), "y");
    let t = Template::parse("{{ 1.5 + 2 }}").unwrap();
    assert!(matches!(t.render(&Vec::new(), false, "", "", &Vec::new()), Err(Halt::Need(_))));
    assert_eq!(t.source(), "{{ 1.5 + 2 }}");
}

/// Case and JSON filters go through the standard library and the JSON writer.
#[test]
fn filters_transform_their_input() {
    assert_eq!(render("{{ 'aBc' | upper }}", &[], false), "ABC");
    assert_eq!(render("{{ 'aBc' | lower }}", &[], false), "abc");
    assert_eq!(render("{{ 'a\\nb' | tojson }}", &[], false), "\"a\\nb\"");
    assert_eq!(render("{{ messages[0] | tojson }}", &[("user", "hi")], false), "{\"content\":\"hi\",\"role\":\"user\"}");
}
