//! Scoring windows.

use moe::eval::Windows;

/// Every token but the first must be scored exactly once.
#[test]
fn windows_cover_each_target_once() {
    for total in [2usize, 5, 17, 64, 100] {
        for ctx in [2usize, 4, 8, 33] {
            for stride in [1usize, 2, 3, ctx / 2 + 1] {
                let plan = Windows { total, ctx, stride }.plan();
                let mut hits = vec![0usize; total];
                for (start, from, len) in plan {
                    for offset in from..len {
                        let target = start + offset + 1;
                        if target < total {
                            hits[target] += 1;
                        }
                    }
                }
                assert!(hits[1..].iter().all(|h| *h == 1), "total {total} ctx {ctx} stride {stride}: {hits:?}");
                assert_eq!(hits[0], 0, "token 0 is never a target");
            }
        }
    }
}

#[test]
fn a_corpus_shorter_than_two_tokens_scores_nothing() {
    assert!(Windows { total: 0, ctx: 8, stride: 4 }.plan().is_empty());
    assert!(Windows { total: 1, ctx: 8, stride: 4 }.plan().is_empty());
}

/// Every scored position must see all the context the window can give it.
#[test]
fn later_windows_score_only_their_fresh_tail() {
    let plan = Windows { total: 20, ctx: 8, stride: 4 }.plan();
    assert_eq!(plan[0], (0, 0, 8));
    // The first window reaches target 8 at its right edge, so the second
    // starts scoring at token 9 — predicted by position 8, which sits four
    // tokens into a window that begins at 4 and therefore has full context.
    assert_eq!(plan[1].0, 4);
    assert_eq!(plan[1].0 + plan[1].1, 8);
}

/// The pairs of a window are a position in it and the token that it predicts.
#[test]
fn targets_follow_their_positions() {
    let w = Windows { total: 5, ctx: 3, stride: 2 };
    let plan = w.plan();
    let mut targets = Vec::new();
    for window in plan {
        for (_, t) in w.targets(window) {
            targets.push(t);
        }
    }
    assert_eq!(targets, vec![1, 2, 3, 4]);
}

/// A target has everything before it as context, or all of a window but a stride.
#[test]
fn targets_keep_their_context() {
    for (total, ctx, stride) in [(40usize, 8usize, 3usize), (17, 4, 4), (100, 33, 1)] {
        for (start, from, _) in (Windows { total, ctx, stride }).plan() {
            assert!(start == 0 || from == ctx - stride, "start {start} from {from}");
        }
    }
}
