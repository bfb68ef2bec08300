//! The tokenizer: splitting, merging, and the way back to text.

use moe::json::Json;
use moe::parse::parse;
use moe::tokenizer::{byte_table, Stream};
use moe::Tokenizer;
use serde_json::Value;

fn doc(text: &str) -> Json {
    parse(text.as_bytes()).unwrap()
}

/// The alternation shipped by current byte-level checkpoints.
const MODERN: &str = r"(?i:'s|'t|'re|'ve|'m|'ll|'d)|[^\r\n\p{L}\p{N}]?\p{L}+|\p{N}| ?[^\s\p{L}\p{N}]+[\r\n]*|\s*[\r\n]+|\s+(?!\S)|\s+";
/// The original GPT-2 alternation.
const CLASSIC: &str = r"'s|'t|'re|'ve|'m|'ll|'d| ?\p{L}+| ?\p{N}+| ?[^\s\p{L}\p{N}]+|\s+(?!\S)|\s+";

fn byte_level(pattern: &str, vocab: &str, merges: &str) -> Tokenizer {
    let text = format!(
        "{{\"model\": {{\"type\": \"BPE\", \"vocab\": {vocab}, \"merges\": {merges}}},
          \"pre_tokenizer\": {{\"type\": \"Sequence\", \"pretokenizers\": [
            {{\"type\": \"Split\", \"pattern\": {{\"Regex\": {}}}, \"behavior\": \"Isolated\"}},
            {{\"type\": \"ByteLevel\", \"add_prefix_space\": false}}]}},
          \"decoder\": {{\"type\": \"ByteLevel\"}}}}",
        Value::from(pattern)
    );
    let j = doc(&text);
    Tokenizer::from_json(&j).unwrap()
}

fn split(pattern: &str, text: &str) -> Vec<String> {
    byte_level(pattern, "{}", "[]").pretokenize(text)
}

#[test]
fn modern_split_boundaries() {
    assert_eq!(split(MODERN, "hello world"), ["hello", " world"]);
    // A word may absorb any single non-alphanumeric character, not just a space.
    assert_eq!(split(MODERN, "Mixed_CASE"), ["Mixed", "_CASE"]);
    assert_eq!(split(MODERN, "a\tb\nc\r\nd"), ["a", "\tb", "\n", "c", "\r\n", "d"]);
    // One token per digit under `\p{N}`.
    assert_eq!(split(MODERN, "42"), ["4", "2"]);
    // A whitespace run gives its last space to the next word,
    // but keeps the whole run at end of text.
    assert_eq!(split(MODERN, "  lead"), [" ", " lead"]);
    assert_eq!(split(MODERN, "trail   "), ["trail", "   "]);
    assert_eq!(split(MODERN, "don't DON'T"), ["don", "'t", " DON", "'T"]);
}

#[test]
fn classic_split_boundaries() {
    // Only a space attaches to a word, digits stay in runs,
    // and newlines do not bind to symbols.
    assert_eq!(split(CLASSIC, "Mixed_CASE"), ["Mixed", "_", "CASE"]);
    assert_eq!(split(CLASSIC, "42 7"), ["42", " 7"]);
    assert_eq!(split(CLASSIC, "a\tb"), ["a", "\t", "b"]);
    // Case-sensitive contractions here.
    assert_eq!(split(CLASSIC, "DON'T"), ["DON", "'", "T"]);
}

#[test]
fn bpe_applies_lowest_rank_first() {
    // Ranks: "a b" beats "b c", so "abc" must come from ab + c.
    let vocab = r#"{"a": 0, "b": 1, "c": 2, "ab": 3, "bc": 4, "abc": 5}"#;
    let t = byte_level(MODERN, vocab, r#"["a b", "b c", "ab c"]"#);
    let mut ids = Vec::new();
    t.bpe("abc", &mut ids);
    assert_eq!(ids, [5]);

    // With only the "b c" merge available, the left pair cannot form.
    let vocab = r#"{"a": 0, "b": 1, "c": 2, "bc": 4}"#;
    let t = byte_level(MODERN, vocab, r#"["b c"]"#);
    let mut ids = Vec::new();
    t.bpe("abc", &mut ids);
    assert_eq!(ids, [0, 4]);
}

#[test]
fn byte_level_round_trips_every_byte() {
    let table = byte_table();
    let vocab: serde_json::Map<String, Value> = (0..256).map(|b| (table[b].to_string(), Value::from(b))).collect();
    let t = byte_level(MODERN, &Value::Object(vocab).to_string(), "[]");
    for text in ["héllo wörld", "🚀 tabs\tand\nnewlines", "0x1F/\\|~`"] {
        let ids = t.encode(text, None);
        assert_eq!(t.decode(&ids), text, "round trip failed for {text:?}");
        // Streaming one token at a time must produce the same text, with no
        // broken glyphs where a character spans several tokens.
        let mut st = Stream::default();
        let streamed: String = ids.iter().map(|i| st.push(&t, *i)).collect();
        assert_eq!(streamed, text, "streamed round trip failed for {text:?}");
    }
}

#[test]
fn metaspace_prepends_unconditionally() {
    let j = doc(r#"{
        "model": {"type": "BPE", "vocab": {"\u2581": 0, "a": 1}, "merges": []},
        "normalizer": {"type": "Sequence", "normalizers": [
            {"type": "Prepend", "prepend": "\u2581"},
            {"type": "Replace", "pattern": {"String": " "}, "content": "\u2581"}
        ]}
    }"#);
    let t = Tokenizer::from_json(&j).unwrap();
    // "a" -> "_a", and " a" -> "__a": the separator is added even when the
    // text already starts with one.
    assert_eq!(t.encode("a", None), [0, 1]);
    assert_eq!(t.encode(" a", None), [0, 0, 1]);
    assert_eq!(t.decode(&[0, 1]), " a");
}

/// An added token holds raw text, so it must bypass the byte-level map on
/// the way out — a vocabulary entry of four spaces decodes to four spaces.
#[test]
fn added_tokens_decode_literally() {
    let vocab = r#"{"a": 0, "b": 1, "    ": 7, "\n": 8}"#;
    let j = doc(&r#"{
        "model": {"type": "BPE", "vocab": VOCAB, "merges": []},
        "added_tokens": [
            {"id": 7, "content": "    ", "special": false},
            {"id": 8, "content": "\n", "special": false}
        ],
        "pre_tokenizer": {"type": "ByteLevel", "add_prefix_space": false}
    }"#.replace("VOCAB", vocab));
    let t = Tokenizer::from_json(&j).unwrap();
    assert_eq!(t.decode(&[0, 7, 1]), "a    b");
    assert_eq!(t.decode(&[8, 7, 0]), "\n    a");
    let mut st = Stream::default();
    let streamed: String = [0u32, 7, 1].iter().map(|i| st.push(&t, *i)).collect();
    assert_eq!(streamed, "a    b");
}

/// A vocabulary may leave out as many ids as it likes: those decode to nothing.
#[test]
fn vocabularies_may_be_sparse() {
    let j = doc(r#"{
        "model": {"type": "BPE", "vocab": {"a": 4000000000, "b": 3}, "merges": []},
        "added_tokens": [{"id": 3900000000, "content": "<end>", "special": true}],
        "pre_tokenizer": {"type": "ByteLevel", "add_prefix_space": false}
    }"#);
    let t = Tokenizer::from_json(&j).unwrap();
    assert_eq!(t.vocab_size(), 4_000_000_001);
    assert_eq!(t.decode_one(4_000_000_000), "a");
    assert_eq!(t.decode(&[3, 4, 4_000_000_000, 4_294_967_295]), "ba");
    assert_eq!(t.encode("ab", None), [4_000_000_000, 3]);
    assert!(t.is_special(3_900_000_000));
    assert!(!t.is_special(4_000_000_000) && !t.is_special(5));
}

/// A `Strip` in the decoder undoes the `Prepend` in the normaliser, so a
/// round trip does not gain a leading space.
#[test]
fn metaspace_decoder_strips_the_prepended_space() {
    let j = doc(r#"{
        "model": {"type": "BPE", "vocab": {"\u2581": 0, "a": 1}, "merges": []},
        "normalizer": {"type": "Sequence", "normalizers": [
            {"type": "Prepend", "prepend": "\u2581"},
            {"type": "Replace", "pattern": {"String": " "}, "content": "\u2581"}
        ]},
        "decoder": {"type": "Sequence", "decoders": [
            {"type": "Replace", "pattern": {"String": "\u2581"}, "content": " "},
            {"type": "Strip", "content": " ", "start": 1, "stop": 0}
        ]}
    }"#);
    let t = Tokenizer::from_json(&j).unwrap();
    assert!(t.strips_leading_space());
    assert_eq!(t.decode(&t.encode("a", None)), "a");
    assert_eq!(t.decode(&t.encode(" a", None)), " a");
    let mut st = Stream::default();
    let streamed: String = t.encode("a", None).iter().map(|i| st.push(&t, *i)).collect();
    assert_eq!(streamed, "a");
}

#[test]
fn added_tokens_are_matched_before_text() {
    let vocab = r#"{"a": 0, "b": 1, "<|end|>": 7}"#;
    let j = doc(&r#"{
        "model": {"type": "BPE", "vocab": VOCAB, "merges": []},
        "added_tokens": [{"id": 7, "content": "<|end|>", "special": true}],
        "pre_tokenizer": {"type": "ByteLevel", "add_prefix_space": false}
    }"#.replace("VOCAB", vocab));
    let t = Tokenizer::from_json(&j).unwrap();
    assert_eq!(t.encode("a<|end|>b", None), [0, 7, 1]);
    assert!(t.is_special(7));
    assert!(!t.is_special(0));
}
