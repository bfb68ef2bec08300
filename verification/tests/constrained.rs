//! Constrained decoding, end to end through the decode loop.
//!
//! The stand-in for a model has no idea what JSON is. If valid JSON comes out of it, it
//! came out because the mask made everything else unreachable.

use moe::draft::Lookup;
use moe::generate::{Action, Event, Generator, Outcome, Plan, Stop};
use moe::json::Json;
use moe::parse::parse;
use moe::tokenizer::byte_table;
use moe::{Grammar, Guide, Tokenizer};
use serde_json::Value;

fn doc(text: &str) -> Json {
    parse(text.as_bytes()).unwrap()
}

/// A stand-in for a model: the score of a token after some context.
fn score(seed: u64, context: &[u32], token: u32) -> u32 {
    let n = context.len();
    let mut z = seed.wrapping_add(token as u64 + 1).wrapping_mul(0x9e37_79b9_7f4a_7c15);
    // Only the last two tokens count, so that text repeats.
    for t in &context[n.saturating_sub(2)..] {
        z = (z ^ (*t as u64 + 7)).wrapping_mul(0xbf58_476d_1ce4_e5b9);
        z ^= z >> 29;
    }
    (z >> 33) as u32
}

fn allowed(mask: &Option<Vec<bool>>, t: u32) -> bool {
    match mask {
        Some(m) => m[t as usize],
        None => true,
    }
}

/// The token with the highest score that the mask allows.
fn best(seed: u64, context: &[u32], vocab: u32, mask: &Option<Vec<bool>>) -> u32 {
    (0..vocab).filter(|t| allowed(mask, *t)).max_by_key(|t| score(seed, context, *t)).unwrap()
}

/// Run the loop over the stand-in, greedily. Gives what was said, the outcome, the history
/// and what the cache holds.
fn drive(mut g: Generator, prompt: &[u32], seed: u64, vocab: u32, limit: usize) -> (Vec<u32>, Outcome, Vec<u32>, Vec<u32>) {
    let mut cache = prompt.to_vec();
    // The context that each row of the latest scores follows.
    let mut rows: Vec<Vec<u32>> = vec![cache.clone()];
    let mut out = Vec::new();
    let mut action = g.advance(Event::Begin);
    loop {
        cache.truncate(g.cache());
        let event = match &action {
            Action::Draw { row, mask } => Event::Drawn(best(seed, &rows[*row], vocab, mask)),
            Action::Judge { row, guess, mask } => {
                let t = best(seed, &rows[*row], vocab, mask);
                if t == *guess {
                    Event::Kept
                } else {
                    Event::Replaced(t)
                }
            }
            Action::Run(tokens) => {
                rows.clear();
                for t in tokens {
                    cache.push(*t);
                    rows.push(cache.clone());
                }
                Event::Ran
            }
            Action::Say(t) => {
                out.push(*t);
                Event::Heard(out.len() < limit)
            }
            Action::Finish(_) => break,
        };
        action = g.advance(event);
    }
    (out, g.outcome(), g.history().clone(), cache)
}

/// A byte-level vocabulary of exactly the characters JSON is made of, one token
/// each. Single-byte tokens are the hardest case for the masker: every structural
/// decision is a separate step.
fn tokenizer() -> Tokenizer {
    let chars = "{}[]\":,0123456789truefalsnq abcXY.-";
    let mut vocab = serde_json::Map::new();
    let table = byte_table();
    for (i, c) in chars.chars().collect::<Vec<_>>().iter().enumerate() {
        // The vocabulary is 48 wide; keep inside it.
        assert!(i < 48, "test vocabulary outgrew its width");
        vocab.insert(table[*c as usize].to_string(), Value::from(i));
    }
    let n = vocab.len();
    // One control token, to prove specials are masked out under a constraint.
    let text = format!(
        "{{\"model\": {{\"vocab\": {}, \"merges\": []}}, \"added_tokens\": [{{\"id\": {n}, \"content\": \"<|eos|>\", \"special\": true}}]}}",
        Value::Object(vocab)
    );
    Tokenizer::from_json(&doc(&text)).unwrap()
}

/// Generate under `grammar` and return the decoded text plus why it stopped.
fn constrained(g: Grammar, max_tokens: usize, lookahead: usize, seed: u64) -> (String, Stop) {
    let tok = tokenizer();
    let prompt: Vec<u32> = vec![0, 1, 2];
    let ctx = prompt.len() + max_tokens + lookahead + 2;
    let plan = Plan { max_tokens, seed, lookahead, lookup: Lookup { max_ngram: 4, min_ngram: 2 }, logprobs: 0 };
    let guide = Guide::new(g, &tok);
    let g = Generator::new(plan, 48, ctx, Vec::new(), prompt.clone(), prompt.len(), Some(guide));
    let (out, o, _, _) = drive(g, &prompt, seed, 48, usize::MAX);
    (tok.decode(&out), o.stop)
}

#[test]
fn free_json_output_always_parses() {
    // Many seeds, because a mask bug may only show on a particular path.
    for seed in 0..24u64 {
        let (text, stop) = constrained(Grammar::json(), 40, 0, seed);
        assert!(!text.is_empty(), "seed {seed} produced nothing");
        // Either it finished a document, or it ran out of budget mid-way.
        if stop == Stop::Complete {
            serde_json::from_str::<Value>(&text)
                .unwrap_or_else(|e| panic!("seed {seed} emitted invalid JSON {text:?}: {e}"));
        } else {
            // An unfinished document must still be a legal prefix, which is
            // exactly what the grammar says it is.
            let g = Grammar::json();
            let mut mach = g.start();
            assert!(g.feed_all(&mut mach, text.as_bytes()), "seed {seed}: {text:?} is not a viable prefix");
        }
    }
}

#[test]
fn a_schema_is_obeyed_to_the_letter() {
    let src = doc(
        r#"{"type": "object",
            "properties": {"n": {"type": "integer"}, "ok": {"type": "boolean"}},
            "required": ["n", "ok"]}"#,
    );
    for seed in 0..16u64 {
        let (text, stop) = constrained(Grammar::from_schema(&src).unwrap(), 60, 0, seed);
        if stop != Stop::Complete {
            continue;
        }
        let v: Value =
            serde_json::from_str(&text).unwrap_or_else(|e| panic!("seed {seed} emitted invalid JSON {text:?}: {e}"));
        assert!(v["n"].is_i64(), "seed {seed}: n is not an integer in {text}");
        assert!(v["ok"].is_boolean(), "seed {seed}: ok is not a boolean in {text}");
        assert_eq!(v.as_object().unwrap().len(), 2, "seed {seed}: extra properties in {text}");
        // Keys come out in the declared order, which is what makes the automaton
        // deterministic; check the bytes, not just the parse.
        assert!(text.find("\"n\"").unwrap() < text.find("\"ok\"").unwrap(), "order not held in {text}");
    }
}

/// Generation must stop the moment the document is complete rather than running
/// to the token budget and trailing garbage.
#[test]
fn a_completed_document_ends_generation() {
    let g = Grammar::from_schema(&doc(r#"{"type": "boolean"}"#)).unwrap();
    let (text, stop) = constrained(g, 40, 0, 1);
    assert_eq!(stop, Stop::Complete);
    let v: Value = serde_json::from_str(&text).unwrap_or_else(|e| panic!("{text:?}: {e}"));
    assert!(v.is_boolean(), "{text:?}");
    // Nothing may follow the value that completed the document.
    assert_eq!(text.trim(), if v == true { "true" } else { "false" });
}

/// An enum can only produce one of its members, whatever the model prefers.
#[test]
fn an_enum_admits_only_its_members() {
    let schema = doc(r#"{"enum": ["abc", "XY"]}"#);
    for seed in 0..12u64 {
        let (text, stop) = constrained(Grammar::from_schema(&schema).unwrap(), 20, 0, seed);
        if stop == Stop::Complete {
            // Leading whitespace is legal JSON, so compare the value, not the bytes.
            let v: Value = serde_json::from_str(&text).unwrap_or_else(|e| panic!("{text:?}: {e}"));
            assert!(v == "abc" || v == "XY", "seed {seed}: {text:?}");
        }
    }
}

/// Speculation and constraints have to compose: a drafted token that would break
/// the grammar is masked and therefore always rejected, so the output stays valid and
/// identical to the unspeculated one.
#[test]
fn speculation_cannot_smuggle_invalid_tokens_past_a_constraint() {
    for seed in 0..12u64 {
        let (plain, plain_stop) = constrained(Grammar::json(), 40, 0, seed);
        for lookahead in [2usize, 4, 8] {
            let (spec, spec_stop) = constrained(Grammar::json(), 40, lookahead, seed);
            assert_eq!(spec, plain, "seed {seed} lookahead {lookahead} changed constrained output");
            assert_eq!(spec_stop, plain_stop);
        }
        if plain_stop == Stop::Complete {
            serde_json::from_str::<Value>(&plain).expect("constrained output must parse");
        }
    }
}

/// Control tokens carry no document bytes, so a constraint must make them
/// unreachable, otherwise a model could end a document early with an EOS the
/// grammar never saw.
#[test]
fn control_tokens_are_unreachable_under_a_constraint() {
    let tok = tokenizer();
    let guide = Guide::new(Grammar::json(), &tok);
    let special = (0..48u32).find(|i| tok.is_special(*i)).expect("the tokenizer has a special token");
    let (mask, allowed) = guide.mask(48);
    assert!(allowed > 0, "the mask left nothing at all");
    assert!(!mask[special as usize], "a control token survived the mask");
    assert_eq!(mask.iter().filter(|ok| **ok).count(), allowed);
}

/// A guide knows the tokens of a sparse vocabulary by their ids, and no others.
#[test]
fn guides_work_over_sparse_vocabularies() {
    let text = r#"{"model": {"vocab": {"[": 4000000000, "]": 2}, "merges": []}}"#;
    let tok = Tokenizer::from_json(&doc(text)).unwrap();
    let mut guide = Guide::new(Grammar::json(), &tok);
    assert_eq!(guide.mask(4), (vec![false; 4], 0));
    assert!(!guide.accept(3));
    assert!(guide.accept(4_000_000_000));
    assert_eq!(guide.mask(4), (vec![false, false, true, false], 1));
    assert!(guide.accept(2));
    assert!(guide.complete());
}

/// A vocabulary that cannot speak a shape at all leaves nothing to say.
#[test]
fn a_constraint_that_nothing_meets_is_reported() {
    let schema = doc(r#"{"enum": ["zzz"]}"#);
    let (text, stop) = constrained(Grammar::from_schema(&schema).unwrap(), 20, 0, 3);
    assert_eq!(stop, Stop::Stuck);
    assert_eq!(text.trim(), "\"");
    assert_eq!(stop.reason(), "length");
}
