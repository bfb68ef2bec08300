//! The lookup drafter.

use moe::Lookup;

#[test]
fn proposes_what_followed_the_last_repeat() {
    let l = Lookup { max_ngram: 4, min_ngram: 2 };
    // "1 2 3" occurred before and was followed by "4 5".
    let h = [1u32, 2, 3, 4, 5, 9, 1, 2, 3];
    assert_eq!(l.propose(&h, 2), vec![4, 5]);
    assert_eq!(l.propose(&h, 1), vec![4]);
    // Asking for more than the history holds yields what there is.
    assert_eq!(l.propose(&h, 9), vec![4, 5, 9, 1, 2, 3]);
}

#[test]
fn prefers_the_most_recent_precedent() {
    let l = Lookup { max_ngram: 2, min_ngram: 1 };
    // "7" is followed by 1 early on and by 2 later; the later wins.
    let h = [7u32, 1, 0, 7, 2, 0, 7];
    assert_eq!(l.propose(&h, 1), vec![2]);
}

#[test]
fn prefers_a_longer_match_over_a_nearer_short_one() {
    let l = Lookup { max_ngram: 3, min_ngram: 1 };
    // Suffix "5 6": the 3-gram "4 5 6" matched earlier and was followed by
    // 7, which beats the nearer bare "6" followed by 9.
    let h = [4u32, 5, 6, 7, 0, 6, 9, 0, 4, 5, 6];
    assert_eq!(l.propose(&h, 1), vec![7]);
}

#[test]
fn novel_text_proposes_nothing() {
    let l = Lookup::default();
    let h: Vec<u32> = (0..40).collect();
    assert!(l.propose(&h, 4).is_empty());
}

#[test]
fn degenerate_inputs_are_safe() {
    let l = Lookup::default();
    assert!(l.propose(&[], 4).is_empty());
    assert!(l.propose(&[1], 4).is_empty());
    assert!(l.propose(&[1, 1, 1, 1], 0).is_empty());
    // A min_ngram longer than the history cannot match anything.
    assert!(Lookup { max_ngram: 8, min_ngram: 8 }.propose(&[1, 2, 3], 2).is_empty());
}

/// Whatever comes back must be a real slice of the history, so a draft can
/// never introduce a token the vocabulary has not already produced.
#[test]
fn proposals_only_ever_replay_seen_tokens() {
    let l = Lookup::default();
    let h = [3u32, 1, 4, 1, 5, 9, 2, 6, 5, 3, 5, 9, 2];
    let p = l.propose(&h, 5);
    assert!(p.iter().all(|t| h.contains(t)), "{p:?}");
}
