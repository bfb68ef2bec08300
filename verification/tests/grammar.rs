//! The grammar, against text.

use moe::automaton::{Num, MAX_DEPTH, MAX_OPTIONS};
use moe::json::Json;
use moe::parse::parse;
use moe::Grammar;

fn doc(text: &str) -> Json {
    parse(text.as_bytes()).unwrap()
}

/// Does the grammar accept this text as a complete document?
fn accepts(g: &Grammar, s: &str) -> bool {
    let mut m = g.start();
    g.feed_all(&mut m, s.as_bytes()) && g.complete(&m)
}

/// Could this text still be extended into a valid document?
fn viable(g: &Grammar, s: &str) -> bool {
    let mut m = g.start();
    g.feed_all(&mut m, s.as_bytes())
}

fn schema(s: &str) -> Grammar {
    Grammar::from_schema(&doc(s)).unwrap()
}

#[test]
fn free_json_accepts_valid_documents() {
    let g = Grammar::json();
    for s in [
        "null",
        "true",
        "false",
        "0",
        "-0",
        "1",
        "-12",
        "1.5",
        "1e10",
        "1E+10",
        "-2.5e-3",
        "\"\"",
        "\"hi\"",
        "\"a\\\"b\"",
        "\"\\u00e9\"",
        "\"\\n\\t\\\\\"",
        "[]",
        "[1]",
        "[1,2,3]",
        "[[[]]]",
        "{}",
        "{\"a\":1}",
        "{\"a\":1,\"b\":[true,null]}",
        "  {  \"a\" :  [ 1 , 2 ]  }  ",
        "{\"nested\":{\"deep\":{\"x\":\"y\"}}}",
        "\"é\"",
        "\"日本\"",
    ] {
        assert!(accepts(&g, s), "rejected valid JSON: {s}");
    }
}

#[test]
fn free_json_rejects_invalid_documents() {
    let g = Grammar::json();
    for s in [
        "",
        "{",
        "}",
        "[",
        "[,]",
        "[1,]",
        "{,}",
        "{\"a\"}",
        "{\"a\":}",
        "{a:1}",
        "{'a':1}",
        "{\"a\":1,}",
        "01",
        "-",
        "+1",
        ".5",
        "1.",
        "1e",
        "1e+",
        "tru",
        "truex",
        "nul",
        "\"unterminated",
        "\"bad\\escape\"",
        "\"\\u00g0\"",
        "1 2",
        "[1 2]",
        "{\"a\":1}{}",
        "[1]]",
    ] {
        assert!(!accepts(&g, s), "accepted invalid JSON: {s}");
    }
}

/// The mask has to be built from prefix viability, not from whole documents,
/// so a valid prefix must stay viable while an impossible one must not.
#[test]
fn prefixes_are_judged_on_what_could_still_follow() {
    let g = Grammar::json();
    for s in ["{", "{\"", "{\"a", "{\"a\"", "{\"a\":", "{\"a\":1", "{\"a\":1,", "[", "[1", "[1,", "1", "1.", "1e"] {
        assert!(viable(&g, s), "a valid prefix was rejected: {s}");
    }
    for s in ["{]", "[}", "{\"a\":,", "{:", "1.e", "--", "\"\\q"] {
        assert!(!viable(&g, s), "an impossible prefix stayed viable: {s}");
    }
    // Viable is not the same as complete.
    assert!(!accepts(&g, "{\"a\":1"));
}

#[test]
fn a_number_is_only_finished_when_nothing_extends_it() {
    let g = Grammar::json();
    // Complete on its own...
    assert!(accepts(&g, "12"));
    // ...and closed by a delimiter, which must then be processed.
    assert!(accepts(&g, "[12,13]"));
    assert!(accepts(&g, "{\"a\":1}"));
    // A number that cannot end where it stops is not a document.
    assert!(!accepts(&g, "1e"));
    assert!(!accepts(&g, "[1e]"));
}

#[test]
fn schema_pins_a_scalar_type() {
    assert!(accepts(&schema(r#"{"type":"string"}"#), "\"x\""));
    assert!(!accepts(&schema(r#"{"type":"string"}"#), "1"));
    assert!(accepts(&schema(r#"{"type":"integer"}"#), "-7"));
    // An integer may not carry a fraction or an exponent.
    assert!(!accepts(&schema(r#"{"type":"integer"}"#), "1.5"));
    assert!(!accepts(&schema(r#"{"type":"integer"}"#), "1e3"));
    assert!(accepts(&schema(r#"{"type":"number"}"#), "1.5"));
    assert!(accepts(&schema(r#"{"type":"boolean"}"#), "true"));
    assert!(!accepts(&schema(r#"{"type":"boolean"}"#), "null"));
    assert!(accepts(&schema(r#"{"type":"null"}"#), "null"));
    assert!(!accepts(&schema(r#"{"type":"null"}"#), "false"));
}

#[test]
fn schema_requires_declared_properties_in_order() {
    let g = schema(
        r#"{"type":"object",
            "properties":{"name":{"type":"string"},"age":{"type":"integer"}},
            "required":["name","age"]}"#,
    );
    assert!(accepts(&g, r#"{"name":"ada","age":36}"#));
    // Order is fixed, so the reverse is not accepted.
    assert!(!accepts(&g, r#"{"age":36,"name":"ada"}"#));
    // Required properties cannot be dropped.
    assert!(!accepts(&g, r#"{"name":"ada"}"#));
    assert!(!accepts(&g, "{}"));
    // Undeclared properties cannot be invented.
    assert!(!accepts(&g, r#"{"name":"ada","age":36,"extra":1}"#));
    // Types are enforced per property.
    assert!(!accepts(&g, r#"{"name":1,"age":36}"#));
    assert!(!accepts(&g, r#"{"name":"ada","age":"36"}"#));
}

#[test]
fn optional_properties_may_be_skipped_but_not_reordered() {
    let g = schema(
        r#"{"type":"object",
            "properties":{"a":{"type":"integer"},"b":{"type":"integer"},"c":{"type":"integer"}},
            "required":["a","c"]}"#,
    );
    // Required first in declared order, then the rest: a, c, b.
    assert!(accepts(&g, r#"{"a":1,"c":3}"#));
    assert!(accepts(&g, r#"{"a":1,"c":3,"b":2}"#));
    // b is optional, so it may be left out, but it cannot come before c.
    assert!(!accepts(&g, r#"{"a":1,"b":2,"c":3}"#));
    assert!(!accepts(&g, r#"{"c":3}"#));
}

#[test]
fn schema_constrains_arrays_by_shape_and_length() {
    let g = schema(r#"{"type":"array","items":{"type":"integer"},"minItems":2,"maxItems":3}"#);
    assert!(accepts(&g, "[1,2]"));
    assert!(accepts(&g, "[1,2,3]"));
    assert!(!accepts(&g, "[1]"), "minItems not enforced");
    assert!(!accepts(&g, "[]"));
    assert!(!accepts(&g, "[1,2,3,4]"), "maxItems not enforced");
    assert!(!accepts(&g, "[1,\"x\"]"), "item type not enforced");
    // A full array cannot even start another element.
    assert!(!viable(&g, "[1,2,3,"));
}

#[test]
fn enums_and_consts_admit_exactly_their_members() {
    let g = schema(r#"{"enum":["red","green",7,true,null]}"#);
    for ok in ["\"red\"", "\"green\"", "7", "true", "null"] {
        assert!(accepts(&g, ok), "rejected enum member {ok}");
    }
    for bad in ["\"blue\"", "8", "false", "\"re\"", "\"redx\""] {
        assert!(!accepts(&g, bad), "accepted non-member {bad}");
    }
    let c = schema(r#"{"const":42}"#);
    assert!(accepts(&c, "42"));
    assert!(!accepts(&c, "43"));
    assert!(!accepts(&c, "4"));
}

/// Members that prefix one another resolve on the following byte, the same
/// way a number does.
#[test]
fn enum_members_that_share_a_prefix_are_disambiguated() {
    let g = schema(r#"{"type":"array","items":{"enum":[1,12,123]}}"#);
    for s in ["[1]", "[12]", "[123]", "[1,12,123]"] {
        assert!(accepts(&g, s), "rejected {s}");
    }
    assert!(!accepts(&g, "[13]"));
    assert!(!accepts(&g, "[1234]"));
}

#[test]
fn nested_schemas_compose() {
    let g = schema(
        r#"{"type":"object",
            "properties":{
              "id":{"type":"integer"},
              "tags":{"type":"array","items":{"type":"string"}},
              "meta":{"type":"object","properties":{"ok":{"type":"boolean"}},"required":["ok"]}},
            "required":["id","tags","meta"]}"#,
    );
    assert!(accepts(&g, r#"{"id":1,"tags":["a","b"],"meta":{"ok":true}}"#));
    assert!(accepts(&g, r#"{"id":1,"tags":[],"meta":{"ok":false}}"#));
    assert!(!accepts(&g, r#"{"id":1,"tags":["a"],"meta":{}}"#));
    assert!(!accepts(&g, r#"{"id":1,"tags":[1],"meta":{"ok":true}}"#));
}

/// An object with no declared properties constrains the type and nothing else.
#[test]
fn an_open_object_takes_any_keys() {
    let g = schema(r#"{"type":"object"}"#);
    assert!(accepts(&g, "{}"));
    assert!(accepts(&g, r#"{"whatever":[1,2],"x":null}"#));
    assert!(!accepts(&g, "[]"));
}

/// Keywords the engine does not model must not turn into a hard error, and
/// must not stop it constraining what it does understand.
#[test]
fn unmodelled_keywords_stay_permissive() {
    let g = schema(
        r#"{"type":"object","description":"hi","additionalProperties":false,
                       "properties":{"a":{"type":"integer","minimum":3}},"required":["a"]}"#,
    );
    assert!(accepts(&g, r#"{"a":1}"#), "minimum is not modelled, so 1 is allowed");
    assert!(!accepts(&g, r#"{"a":"x"}"#), "the type still binds");
    // A union type falls back to permitting anything.
    let u = schema(r#"{"type":["string","null"]}"#);
    assert!(accepts(&u, "\"x\"") && accepts(&u, "null") && accepts(&u, "1"));
}

#[test]
fn impossible_schemas_are_refused() {
    assert!(Grammar::from_schema(&doc(r#"{"enum": []}"#)).is_err());
    assert!(Grammar::from_schema(&doc(r#"{"type": "widget"}"#)).is_err());
    assert!(
        Grammar::from_schema(&doc(r#"{"type":"array","minItems":5,"maxItems":2}"#)).is_err(),
        "maxItems below minItems"
    );
    let many: Vec<i32> = (0..MAX_OPTIONS as i32 + 1).collect();
    assert!(Grammar::from_schema(&doc(&format!("{{\"enum\": {many:?}}}"))).is_err(), "oversized enum");
}

/// Nesting past the stack limit must fail cleanly rather than corrupt state.
#[test]
fn grammar_depth_is_bounded() {
    let g = Grammar::json();
    let deep = "[".repeat(MAX_DEPTH + 4);
    let mut m = g.start();
    assert!(!g.feed_all(&mut m, deep.as_bytes()));
    // And a failed machine stays failed.
    assert!(!g.feed(&mut m, b']'));
    assert!(!g.complete(&m));
}

/// Bytes may arrive in any grouping, since a token is an arbitrary slice.
#[test]
fn splitting_the_input_anywhere_gives_the_same_verdict() {
    let g = schema(
        r#"{"type":"object","properties":{"k":{"type":"array","items":{"type":"number"}}},"required":["k"]}"#,
    );
    let doc = r#"{"k":[1.5,-2e3]}"#;
    for cut in 0..=doc.len() {
        let mut m = g.start();
        assert!(g.feed_all(&mut m, &doc.as_bytes()[..cut]), "prefix of {cut} rejected");
        assert!(g.feed_all(&mut m, &doc.as_bytes()[cut..]), "suffix from {cut} rejected");
        assert!(g.complete(&m), "split at {cut} left it incomplete");
    }
}

/// Whatever is let through can be continued to a complete document.
#[test]
fn nothing_viable_is_a_dead_end() {
    let free = Grammar::json();
    for (so_far, rest) in [
        ("", "0"),
        ("-", "1"),
        ("1.", "5"),
        ("2e", "+0"),
        ("\"a\\u12", "ab\""),
        ("{\"a\":", "null}"),
        ("[1,", "2]"),
        ("[[{\"k\": [tr", "ue]}]]"),
    ] {
        assert!(viable(&free, so_far), "{so_far:?}");
        assert!(accepts(&free, &format!("{so_far}{rest}")), "{so_far:?} then {rest:?}");
    }
    let g = schema("{\"type\":\"object\",\"properties\":{\"a\":{\"type\":\"integer\"},\"b\":{\"enum\":[1,12]}},\"required\":[\"a\",\"b\"]}");
    assert!(viable(&g, "{\"a\":-"));
    assert!(accepts(&g, "{\"a\":-0 ,\"b\":1 }"));
    assert!(viable(&g, "{\"a\":7,\"b\":1"));
    assert!(accepts(&g, "{\"a\":7,\"b\":12}"));
}

/// Where a number is after some bytes: nowhere, at its end, or before it.
fn number(text: &str, integer: bool) -> Option<bool> {
    let mut at = Num::Lead;
    for b in text.bytes() {
        at = at.feed(b, integer)?;
    }
    Some(at.terminable())
}

/// The numbers of JSON are read, and nothing else; what begins one can go on.
#[test]
fn numbers_are_exactly_numbers() {
    for whole in ["0", "-0", "7", "-7", "10", "907"] {
        assert_eq!((number(whole, false), number(whole, true)), (Some(true), Some(true)), "{whole}");
    }
    for real in ["0.5", "-1.25", "10.0", "1e5", "0E+7", "1.5e-30", "-0.0e0"] {
        assert_eq!((number(real, false), number(real, true)), (Some(true), None), "{real}");
    }
    for begun in ["", "-"] {
        assert_eq!((number(begun, false), number(begun, true)), (Some(false), Some(false)), "{begun}");
    }
    for begun in ["1.", "1e", "1e+", "0.5E-"] {
        assert_eq!(number(begun, false), Some(false), "{begun}");
    }
    for none in ["01", "--1", "+1", ".5", "1..", "1e5.", "1.e5", "1a", "-a", "1e+-1", "00"] {
        assert_eq!((number(none, false), number(none, true)), (None, None), "{none}");
    }
}
