//! Speculation must be invisible in the output.
//!
//! Drafting changes *when* tokens are computed, never which ones come out. Greedily that is
//! checkable exactly: the same prompt must produce the same tokens whether the drafter is
//! off, guessing two tokens ahead, or guessing sixteen.

use moe::draft::Lookup;
use moe::generate::{Action, Event, Generator, Outcome, Plan, Stop};

/// A stand-in for a model: the score of a token after some context.
fn score(seed: u64, context: &[u32], token: u32) -> u32 {
    let n = context.len();
    let mut z = seed.wrapping_add(token as u64 + 1).wrapping_mul(0x9e37_79b9_7f4a_7c15);
    // Only the last two tokens count, so that text repeats.
    for t in &context[n.saturating_sub(2)..] {
        z = (z ^ (*t as u64 + 7)).wrapping_mul(0xbf58_476d_1ce4_e5b9);
        z ^= z >> 29;
    }
    (z >> 33) as u32
}

fn allowed(mask: &Option<Vec<bool>>, t: u32) -> bool {
    match mask {
        Some(m) => m[t as usize],
        None => true,
    }
}

/// The token with the highest score that the mask allows.
fn best(seed: u64, context: &[u32], vocab: u32, mask: &Option<Vec<bool>>) -> u32 {
    (0..vocab).filter(|t| allowed(mask, *t)).max_by_key(|t| score(seed, context, *t)).unwrap()
}

/// Run the loop over the stand-in, greedily. Gives what was said, the outcome, the history
/// and what the cache holds.
fn drive(mut g: Generator, prompt: &[u32], seed: u64, vocab: u32, limit: usize) -> (Vec<u32>, Outcome, Vec<u32>, Vec<u32>) {
    let mut cache = prompt.to_vec();
    // The context that each row of the latest scores follows.
    let mut rows: Vec<Vec<u32>> = vec![cache.clone()];
    let mut out = Vec::new();
    let mut action = g.advance(Event::Begin);
    loop {
        cache.truncate(g.cache());
        let event = match &action {
            Action::Draw { row, mask } => Event::Drawn(best(seed, &rows[*row], vocab, mask)),
            Action::Judge { row, guess, mask } => {
                let t = best(seed, &rows[*row], vocab, mask);
                if t == *guess {
                    Event::Kept
                } else {
                    Event::Replaced(t)
                }
            }
            Action::Run(tokens) => {
                rows.clear();
                for t in tokens {
                    cache.push(*t);
                    rows.push(cache.clone());
                }
                Event::Ran
            }
            Action::Say(t) => {
                out.push(*t);
                Event::Heard(out.len() < limit)
            }
            Action::Finish(_) => break,
        };
        action = g.advance(event);
    }
    (out, g.outcome(), g.history().clone(), cache)
}

const VOCAB: u32 = 48;

fn plan(lookahead: usize, max_tokens: usize) -> Plan {
    Plan { max_tokens, seed: 7, lookahead, lookup: Lookup { max_ngram: 6, min_ngram: 2 }, logprobs: 0 }
}

/// Generate from `prompt` and return the tokens plus the outcome's counters.
fn run(seed: u64, prompt: &[u32], p: Plan, limit: usize) -> (Vec<u32>, Outcome) {
    let (out, o, _) = run_cached(seed, prompt, p, limit);
    (out, o)
}

/// The same, with what the cache ends up holding.
fn run_cached(seed: u64, prompt: &[u32], p: Plan, limit: usize) -> (Vec<u32>, Outcome, Vec<u32>) {
    let ctx = prompt.len() + p.max_tokens + p.lookahead + 2;
    let g = Generator::new(p, VOCAB as usize, ctx, Vec::new(), prompt.to_vec(), prompt.len(), None);
    let (out, o, history, cache) = drive(g, prompt, seed, VOCAB, limit);
    // Whatever was committed must be exactly what the history grew by.
    assert_eq!(history.len(), prompt.len() + out.len(), "history and emissions disagree");
    assert_eq!(&history[prompt.len()..], &out[..]);
    // The cache holds committed tokens only, all but at most the last.
    assert_eq!(cache[..], history[..cache.len()], "something speculative was left behind");
    assert!(cache.len() + 1 >= history.len());
    (out, o, cache)
}

/// A prompt that repeats, so the drafter has precedents to find.
fn repetitive(vocab: usize) -> Vec<u32> {
    let unit: Vec<u32> = (0..6).map(|i| ((i * 3 + 1) % vocab) as u32).collect();
    unit.repeat(5)
}

#[test]
fn greedy_output_is_identical_at_every_lookahead() {
    for seed in 0..8 {
        let prompt = repetitive(VOCAB as usize);
        let (baseline, plain) = run(seed, &prompt, plan(0, 24), usize::MAX);
        assert!(!baseline.is_empty(), "{seed}: nothing generated");
        assert_eq!(plain.drafted, 0, "{seed}: speculation ran with lookahead 0");
        // The first token falls out of the prefill's own logits, so N tokens
        // cost N - 1 forward steps when nothing is drafted.
        let floor = baseline.len() - 1;
        assert_eq!(plain.steps, floor, "{seed}: plain decoding costs one step per token after the first");

        for lookahead in [1usize, 2, 4, 8, 16] {
            let (got, spec) = run(seed, &prompt, plan(lookahead, 24), usize::MAX);
            assert_eq!(got, baseline, "{seed}: lookahead {lookahead} changed the output");
            assert!(spec.accepted <= spec.drafted);
            // Accepted drafts are tokens that cost no step of their own, so
            // speculating can never need more steps than not speculating.
            assert!(spec.steps <= floor, "{seed}: lookahead {lookahead} used {} steps, plain used {floor}", spec.steps);
        }
    }
}

/// On text that repeats, the drafter must actually land some guesses.
#[test]
fn drafting_pays_off_on_repetitive_text() {
    let prompt = repetitive(VOCAB as usize);
    let mut paid = 0;
    for seed in 0..64 {
        let (tokens, spec) = run(seed, &prompt, plan(4, 400), usize::MAX);
        let (accepted, drafted) = spec.acceptance();
        let (n, steps) = spec.tokens_per_step();
        assert!(accepted <= drafted);
        if spec.accepted > 0 {
            assert!(spec.drafted > 0);
            assert!(spec.steps < tokens.len(), "{} steps for {} tokens is no saving", spec.steps, tokens.len());
            assert!(n > steps);
            paid += 1;
        }
    }
    assert!(paid > 0, "no draft was ever accepted");
}

/// The cache has to hold exactly the committed tokens, whatever was speculated.
#[test]
fn the_cache_matches_the_committed_history_after_speculating() {
    let prompt = repetitive(VOCAB as usize);
    for seed in 0..16 {
        let (out, _, cache) = run_cached(seed, &prompt, plan(4, 16), usize::MAX);
        assert_eq!(out.len(), 16);
        assert_eq!(cache.len(), prompt.len() + out.len() - 1, "the last committed token is never forwarded");
    }
}

/// A draft may never carry generation past what was asked for, and the stop
/// reasons must stay truthful when it ends inside an accepted run.
#[test]
fn speculation_respects_the_token_budget() {
    let prompt = repetitive(VOCAB as usize);
    for max in [1usize, 2, 3, 5, 11] {
        let (got, o) = run(3, &prompt, plan(8, max), usize::MAX);
        assert_eq!(got.len(), max, "asked for {max}, got {}", got.len());
        assert_eq!(o.tokens, max);
        assert_eq!(o.stop, Stop::Length);
    }
    let (none, o) = run(3, &prompt, Plan { max_tokens: 0, ..plan(8, 0) }, usize::MAX);
    assert!(none.is_empty());
    assert_eq!(o.tokens_per_step(), (0, 1));
    assert_eq!(o.acceptance(), (0, 1));
}

/// Returning false from the callback must stop immediately, the mechanism the
/// server's stop sequences rely on.
#[test]
fn the_callback_can_halt_mid_draft() {
    let prompt = repetitive(VOCAB as usize);
    let (seen, o) = run(5, &prompt, plan(8, 20), 3);
    assert_eq!(seen.len(), 3);
    assert_eq!(o.tokens, 3);
    assert_eq!(o.stop, Stop::Caller);
}

/// The end-of-sequence token ends generation and is not said; the window ends it too.
#[test]
fn sequences_end_by_token_and_by_window() {
    let prompt = repetitive(VOCAB as usize);
    let first = best(1, &prompt, VOCAB, &None);
    let g = Generator::new(plan(0, 9), VOCAB as usize, 64, vec![first], prompt.clone(), prompt.len(), None);
    let (out, o, _, _) = drive(g, &prompt, 1, VOCAB, usize::MAX);
    assert!(out.is_empty());
    assert_eq!(o.stop, Stop::Eos);
    assert_eq!(o.stop.reason(), "stop");
    let g = Generator::new(plan(4, 9), VOCAB as usize, prompt.len() + 2, Vec::new(), prompt.clone(), prompt.len(), None);
    let (out, o, _, _) = drive(g, &prompt, 1, VOCAB, usize::MAX);
    assert_eq!(out.len(), 2);
    assert_eq!(o.stop, Stop::Context);
    assert_eq!(o.stop.reason(), "length");
}

/// An accepted draft that ends the sequence is dropped from the cache with what follows it:
/// the cache holds the committed tokens, and no others.
#[test]
fn a_drafted_end_of_sequence_leaves_the_cache() {
    let prompt = vec![1, 2, 9, 1];
    let mut g = Generator::new(plan(4, 9), 16, 64, vec![9], prompt.clone(), prompt.len(), None);
    assert!(matches!(g.advance(Event::Begin), Action::Draw { row: 0, mask: None }));
    assert!(matches!(g.advance(Event::Drawn(2)), Action::Say(2)));
    match g.advance(Event::Heard(true)) {
        Action::Run(batch) => assert_eq!(batch[..2], [2, 9]),
        other => panic!("{other:?}"),
    }
    assert!(matches!(g.advance(Event::Ran), Action::Judge { row: 0, guess: 9, mask: None }));
    assert!(matches!(g.advance(Event::Kept), Action::Finish(Stop::Eos)));
    assert_eq!(g.history(), &vec![1, 2, 9, 1, 2]);
    assert_eq!(g.cache(), g.history().len());
    assert_eq!((g.outcome().tokens, g.outcome().steps, g.outcome().accepted), (1, 1, 1));
}

/// At every lookahead a run says the same, ends for the same reason and takes no more
/// steps; without drafts each token after the first takes one.
#[test]
fn drafting_costs_no_steps() {
    let prompt = repetitive(VOCAB as usize);
    for seed in 0..6 {
        let (said, plain) = run(seed, &prompt, plan(0, 24), usize::MAX);
        assert_eq!((plain.drafted, plain.accepted), (0, 0));
        if plain.stop == Stop::Length {
            assert_eq!(plain.steps, plain.tokens - 1);
        }
        for lookahead in [1, 3, 8] {
            let (got, o) = run(seed, &prompt, plan(lookahead, 24), usize::MAX);
            assert_eq!((&got, o.stop), (&said, plain.stop));
            assert!(o.steps <= plain.steps);
        }
    }
}
