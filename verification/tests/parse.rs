//! Reading JSON texts, and the files that hold them.

use moe::json::{Json, Number};
use moe::parse::{parse, parse_file};
use moe::request::read_body;
use moe::store::{preamble, Refusal};
use moe::{Store, Tokenizer};

fn leak(v: Vec<u8>) -> &'static [u8] {
    Box::leak(v.into_boxed_slice())
}

/// A shard: the length of its header, the header, and a payload.
fn shard(head: &str, payload: usize) -> &'static [u8] {
    let mut out = (head.len() as u64).to_le_bytes().to_vec();
    out.extend(head.as_bytes());
    out.resize(out.len() + payload, 0);
    leak(out)
}

fn packed(head: &str, payload: usize) -> &'static [u8] {
    let mut out = preamble(head.len() as u64);
    out.extend(head.as_bytes());
    out.resize(out.len() + payload, 0);
    leak(out)
}

fn refused(r: Result<Store, Refusal>) -> String {
    match r {
        Ok(_) => panic!("opened"),
        Err(e) => e.message("m"),
    }
}

/// Every kind of value is held as it was written, the entries of an object in the order of
/// their names.
#[test]
fn documents_are_held() {
    let j = parse(r#"{"b":[null,true,-3,18446744073709551615,1.5,"x\né"],"a":{},"b2":1e3}"#.as_bytes()).unwrap();
    let Json::Obj(m) = &j else { panic!("no object") };
    assert_eq!(m.iter().map(|(k, _)| k.as_str()).collect::<Vec<_>>(), vec!["a", "b", "b2"]);
    let Json::Arr(a) = j.field("b") else { panic!("no array") };
    assert!(matches!(a[0], Json::Null) && matches!(a[1], Json::Bool(true)));
    assert!(matches!(a[2], Json::Num(Number::Neg(-3))));
    assert!(matches!(a[3], Json::Num(Number::Pos(u64::MAX))));
    match &a[4] {
        Json::Num(Number::Float(b, t)) => assert_eq!((f64::from_bits(*b), t.as_str()), (1.5, "1.5")),
        other => panic!("{other:?}"),
    }
    assert_eq!(a[5].as_str(), Some("x\né"));
    assert_eq!(j.text(), r#"{"a":{},"b":[null,true,-3,18446744073709551615,1.5,"x\né"],"b2":1000.0}"#);
}

/// What is written reads back.
#[test]
fn texts_read_back() {
    let text = r#"{"a":[1,-2,0.25,"q\"\\",[]],"b":{"c":null,"d":false}}"#;
    let j = parse(text.as_bytes()).unwrap();
    assert_eq!(j.text(), text);
    assert_eq!(parse(j.text().as_bytes()).unwrap().text(), text);
}

/// What is no JSON is refused in words.
#[test]
fn other_texts_are_refused() {
    assert_eq!(parse(b"{").unwrap_err(), "EOF while parsing an object at line 1 column 1");
    assert_eq!(parse_file(b"", "f.json").unwrap_err(), "f.json: EOF while parsing a value at line 1 column 0");
    assert_eq!(read_body(b"x").unwrap_err(), "invalid JSON: expected value at line 1 column 1");
    assert_eq!(read_body(b"[7]").unwrap().text(), "[7]");
    assert_eq!(
        Tokenizer::load(b"]", "t.json").err(),
        Some("t.json: expected value at line 1 column 1".to_string())
    );
    assert_eq!(Tokenizer::load(b"{}", "t.json").err(), Some("tokenizer.json has no model.vocab".to_string()));
}

/// A view shows rows of its own tensor only: from a slab on there are as many as are left.
#[test]
fn views_end_where_their_tensor_does() {
    let head = r#"{"tensors":{"a":{"dt":"f32","len":24,"off":0,"shape":[3,2,1]},"b":{"dt":"f32","len":8,"off":24,"shape":[2,1]}}}"#;
    let s = Store::read_packed(packed(head, 32)).unwrap();
    assert_eq!(s.view("a", 2, 0, 2).map(|t| t.rows), Some(2));
    assert_eq!(s.view("a", 0, 0, 6).map(|t| t.rows), Some(6));
    assert!(s.view("a", 2, 0, 3).is_none(), "rows of another tensor");
    assert!(s.view("a", 3, 0, 1).is_none() && s.view("a", usize::MAX, 0, 1).is_none());
    assert!(s.view("a", 1, 2, 2).is_none() && s.view("c", 0, 0, 1).is_none());
}

/// A packed file is opened from its bytes alone.
#[test]
fn packed_files_are_read_whole() {
    let head = r#"{"chat_template":"t","config":{"k":1},"tensors":{"w":{"dt":"f32","len":8,"off":4,"shape":[1,2]}},"tokenizer":null}"#;
    let s = Store::read_packed(packed(head, 12)).unwrap();
    assert_eq!(s.shape("w"), Some((1, 1, 2)));
    assert_eq!(s.config.text(), r#"{"k":1}"#);
    assert_eq!(s.chat_template.as_deref(), Some("t"));
    assert!(s.tokenizer.is_none());
    // A tensor that the file does not hold is known, but cannot be read.
    let s = Store::read_packed(packed(head, 11)).unwrap();
    assert_eq!((s.shape("w"), s.has("w"), s.bytes()), (Some((1, 1, 2)), true, 8));
    assert!(s.get("w").is_none() && s.view("w", 0, 0, 1).is_none());
    let past = head.replace("\"off\":4", "\"off\":18446744073709551615");
    assert_eq!(refused(Store::read_packed(packed(&past, 12))), "w lies outside the file");
    assert_eq!(refused(Store::read_packed(packed("[", 0))), "bad header: EOF while parsing a list at line 1 column 1");
    assert_eq!(refused(Store::read_packed(leak(vec![0; 20]))), "m is not a .moe file");
}

/// Shards are opened from their bytes alone, and the first one at fault decides.
#[test]
fn shards_are_read_in_turn() {
    let a = shard(r#"{"a":{"dtype":"F32","shape":[1,2],"data_offsets":[0,8]}}"#, 8);
    let b = shard(r#"{"b":{"dtype":"F32","shape":[3],"data_offsets":[0,12]}}"#, 12);
    let cut = shard(r#"{"c":{"dtype":"F32","shape":[3],"data_offsets":[0,12]}}"#, 11);
    let past = shard(r#"{"c":{"dtype":"F32","shape":[3],"data_offsets":[18446744073709551615,12]}}"#, 12);
    let bad = shard("{", 0);
    let s = Store::read_hf(&vec![a, b], Some(br#"{"k":2}"#.to_vec()), None).unwrap();
    assert_eq!((s.shape("a"), s.shape("b")), (Some((1, 1, 2)), Some((1, 1, 3))));
    assert_eq!(s.config.text(), r#"{"k":2}"#);
    // A config that cannot be read counts as none.
    assert_eq!(Store::read_hf(&vec![a], Some(b"{".to_vec()), None).unwrap().config.text(), "null");
    assert_eq!(Store::read_hf(&vec![a], None, None).unwrap().config.text(), "null");
    let eof = "bad header: EOF while parsing an object at line 1 column 1";
    assert_eq!(refused(Store::read_hf(&vec![a, bad, past], None, None)), eof);
    assert_eq!(refused(Store::read_hf(&vec![a, past, bad], None, None)), "c lies outside the file");
    // A tensor that its shard does not hold is known, but cannot be read.
    let s = Store::read_hf(&vec![a, cut], None, None).unwrap();
    assert_eq!(s.shape("c"), Some((1, 1, 3)));
    assert!(s.get("c").is_none() && s.get("a").is_some());
    assert_eq!(refused(Store::read_hf(&vec![leak(vec![1; 4])], None, None)), "truncated safetensors file");
}
