//! What the tokenizer does to text, piece by piece: where text is cut, which neighbours merge,
//! and which token stands where.

use vstd::prelude::*;
use vstd::utf8::*;
use crate::json::{JsonV, NumberV};
use crate::text::{alphabetic, first_at, has, is_at, lower_ascii, lowercase, numeric, whitespace};
use crate::tokenizer::{
    best_pair, byte_char, byte_level, byte_name, fallback_ids, in_class, is_newline, is_strip, merge_at, merge_of,
    merged, named_byte, part_ids, parts_ids, piece_end, pieces, rank_at, ranks_along, ranks_of, regex_in, replaced,
    run_end, singles, split_of, vocab_of, Class, Split, TokenizerV, SEPARATOR,
};

verus! {

/// A run of one class, once its end is known.
proof fn lemma_run(c: Seq<char>, j: int, e: int, k: Class, max: nat)
    requires
        0 <= j <= e <= c.len(),
        e - j <= max,
        forall|q: int| j <= q < e ==> in_class(#[trigger] c[q], k),
        e == c.len() || e - j == max || !in_class(c[e], k),
    ensures
        run_end(c, j, k, max) == e,
    decreases max,
{
    if j < e {
        assert(in_class(c[j], k));
        lemma_run(c, j + 1, e, k, (max - 1) as nat);
    }
}

/// Letters from `i` up to `e`, and no further.
pub open spec fn letters(c: Seq<char>, i: int, e: int) -> bool {
    0 <= i < e <= c.len() && (forall|q: int| i <= q < e ==> alphabetic(#[trigger] c[q])) && (e == c.len() || !alphabetic(c[e]))
}

/// Numbers from `i` up to `e`, none of which counts as a letter too.
pub open spec fn digits(c: Seq<char>, i: int, e: int) -> bool {
    0 <= i < e <= c.len() && forall|q: int| i <= q < e ==> numeric(#[trigger] c[q]) && !alphabetic(c[q]) && !whitespace(c[q])
}

/// A character that is neither a letter nor a number nor a space.
pub open spec fn symbolic(c: char) -> bool {
    !alphabetic(c) && !numeric(c) && !whitespace(c)
}

/// Symbols from `i` up to `e`, and no further.
pub open spec fn symbols(c: Seq<char>, i: int, e: int) -> bool {
    0 <= i < e <= c.len() && (forall|q: int| i <= q < e ==> symbolic(#[trigger] c[q])) && (e == c.len() || !symbolic(c[e]))
}

/// A word is a piece: from its first letter to its last, whatever the split.
pub proof fn law_words_are_pieces(c: Seq<char>, i: int, e: int, split: Split)
    requires
        letters(c, i, e),
    ensures
        piece_end(c, i, split) == e,
{
    lemma_run(c, i, e, Class::Letter, c.len());
    assert(alphabetic(c[i]));
}

/// A space before a word belongs to the word's piece.
pub proof fn law_words_take_a_space(c: Seq<char>, i: int, e: int, split: Split)
    requires
        0 <= i,
        c[i] == ' ',
        letters(c, i + 1, e),
    ensures
        piece_end(c, i, split) == e,
{
    assert(alphabetic(c[i + 1]));
    lemma_run(c, i + 1, e, Class::Letter, c.len());
}

/// Where the rule lets a word absorb any character but a letter, a number or a newline, one
/// such character before a word belongs to its piece; where it does not, only a space does.
pub proof fn law_words_take_a_prefix(c: Seq<char>, i: int, e: int, split: Split)
    requires
        0 <= i,
        symbolic(c[i]),
        c[i] != '\'',
        letters(c, i + 1, e),
    ensures
        split.word_any_prefix ==> piece_end(c, i, split) == e,
        !split.word_any_prefix ==> piece_end(c, i, split) == i + 1,
{
    assert(alphabetic(c[i + 1]));
    assert(!symbolic(c[i + 1]));
    assert(!is_newline(c[i]));
    lemma_run(c, i + 1, e, Class::Letter, c.len());
    if !split.word_any_prefix {
        lemma_run(c, i, i + 1, Class::Symbol, c.len());
        assert(!is_newline(c[i + 1]));
        lemma_run(c, i + 1, i + 1, Class::Newline, c.len());
    }
}

/// Digits one by one: a digit that begins a piece is a piece.
pub proof fn law_single_digits_are_pieces(c: Seq<char>, i: int, e: int, split: Split)
    requires
        split.digits is Single,
        digits(c, i, e),
    ensures
        piece_end(c, i, split) == i + 1,
{
    assert(numeric(c[i]));
    lemma_run(c, i, i + 1, Class::Number, 1);
}

/// Digits by threes: a piece that begins at a digit ends after three of them, or at the first
/// that is no number, or with the text, whichever comes first.
pub proof fn law_digits_go_by_threes(c: Seq<char>, i: int, e: int, split: Split)
    requires
        split.digits is Upto3,
        digits(c, i, e),
        e <= i + 3,
        e == i + 3 || e == c.len() || !numeric(c[e]),
    ensures
        piece_end(c, i, split) == e,
{
    assert(numeric(c[i]));
    lemma_run(c, i, e, Class::Number, 3);
}

/// Digits by runs: a piece that begins at a digit ends where the number does.
pub proof fn law_digit_runs_are_pieces(c: Seq<char>, i: int, e: int, split: Split)
    requires
        split.digits is Run,
        digits(c, i, e),
        e == c.len() || !numeric(c[e]),
    ensures
        piece_end(c, i, split) == e,
{
    assert(numeric(c[i]));
    lemma_run(c, i, e, Class::Number, c.len());
}

/// A space before digits belongs to their piece where the rule says so, and else not.
pub proof fn law_digits_take_a_space(c: Seq<char>, i: int, e: int, split: Split)
    requires
        0 <= i,
        c[i] == ' ',
        digits(c, i + 1, e),
    ensures
        !split.digit_space ==> piece_end(c, i, split) == i + 1,
        split.digit_space && split.digits is Single ==> piece_end(c, i, split) == i + 2,
        split.digit_space && split.digits is Run && (e == c.len() || !numeric(c[e])) ==> piece_end(c, i, split) == e,
        split.digit_space && split.digits is Upto3 && e <= i + 4 && (e == i + 4 || e == c.len() || !numeric(c[e]))
            ==> piece_end(c, i, split) == e,
{
    assert(numeric(c[i + 1]) && !alphabetic(c[i + 1]));
    assert(!symbolic(c[i + 1]));
    if !split.digit_space {
        lemma_run(c, i, i + 1, Class::Space, c.len());
        assert(crate::tokenizer::after_newline(c, i, i + 1) == i) by {
            reveal_with_fuel(crate::tokenizer::after_newline, 2);
        }
    } else if split.digits is Single {
        lemma_run(c, i + 1, i + 2, Class::Number, 1);
    } else if split.digits is Run {
        if e == c.len() || !numeric(c[e]) {
            lemma_run(c, i + 1, e, Class::Number, c.len());
        }
    } else if e <= i + 4 && (e == i + 4 || e == c.len() || !numeric(c[e])) {
        lemma_run(c, i + 1, e, Class::Number, 3);
    }
}

/// The pieces of a run of digits that go by threes: all of three digits but perhaps the last.
pub open spec fn threes(c: Seq<char>, i: int, e: int) -> Seq<Seq<char>>
    decreases e - i,
{
    if i >= e {
        Seq::empty()
    } else if e - i <= 3 {
        seq![c.subrange(i, e)]
    } else {
        seq![c.subrange(i, i + 3)] + threes(c, i + 3, e)
    }
}

/// A run of digits that begins a piece is cut into threes, and the pieces behind it are those of
/// the rest.
pub proof fn law_runs_go_by_threes(c: Seq<char>, i: int, e: int, split: Split)
    requires
        split.digits is Upto3,
        digits(c, i, e),
        e == c.len() || !numeric(c[e]),
    ensures
        pieces(c, i, split) == threes(c, i, e) + pieces(c, e, split),
        threes(c, i, e).len() == (e - i + 2) / 3,
        forall|k: int| 0 <= k < threes(c, i, e).len() - 1 ==> (#[trigger] threes(c, i, e)[k]).len() == 3,
    decreases e - i,
{
    if e - i <= 3 {
        law_digits_go_by_threes(c, i, e, split);
        assert(pieces(c, i, split) =~= threes(c, i, e) + pieces(c, e, split));
    } else {
        law_digits_go_by_threes(c, i, i + 3, split);
        law_runs_go_by_threes(c, i + 3, e, split);
        assert(pieces(c, i, split) =~= threes(c, i, e) + pieces(c, e, split));
        assert forall|k: int| 0 <= k < threes(c, i, e).len() - 1 implies (#[trigger] threes(c, i, e)[k]).len() == 3 by {
            if k > 0 {
                assert(threes(c, i, e)[k] == threes(c, i + 3, e)[k - 1]);
            }
        }
    }
}

/// Symbols are a piece together, with a space before them, and with the newlines behind them
/// where the rule says so.
pub proof fn law_symbols_are_pieces(c: Seq<char>, i: int, e: int, f: int, split: Split)
    requires
        symbols(c, i, e) && c[i] != '\'' && !(split.word_any_prefix && i + 1 < c.len() && alphabetic(c[i + 1])) || symbols(
            c,
            i + 1,
            e,
        ) && 0 <= i && c[i] == ' ',
        e <= f <= c.len(),
        forall|q: int| e <= q < f ==> is_newline(#[trigger] c[q]),
        f == c.len() || !is_newline(c[f]),
    ensures
        split.symbol_newline ==> piece_end(c, i, split) == f,
        !split.symbol_newline ==> piece_end(c, i, split) == e,
{
    let j = if symbols(c, i, e) {
        i
    } else {
        i + 1
    };
    assert(symbolic(c[j]));
    lemma_run(c, j, e, Class::Symbol, c.len());
    lemma_run(c, e, f, Class::Newline, c.len());
}

/// Whitespace from `i` up to `e`, and no further.
pub open spec fn blanks(c: Seq<char>, i: int, e: int) -> bool {
    0 <= i < e <= c.len() && (forall|q: int| i <= q < e ==> whitespace(#[trigger] c[q]) && !alphabetic(c[q]) && !numeric(c[q]))
        && (e == c.len() || !whitespace(c[e]))
}

proof fn lemma_newline(c: Seq<char>, i: int, end: int, k: int)
    requires
        i <= k <= end,
        k > i ==> is_newline(c[k - 1]),
        forall|q: int| k <= q < end ==> !is_newline(#[trigger] c[q]),
    ensures
        crate::tokenizer::after_newline(c, i, end) == k,
    decreases end - k,
{
    if k < end {
        assert(!is_newline(c[end - 1]));
        lemma_newline(c, i, end - 1, k);
    } else if end > i {
        assert(is_newline(c[end - 1]));
    }
}

/// Whitespace with a newline in it is cut behind its last newline, where the rule says so.
pub proof fn law_newlines_end_pieces(c: Seq<char>, i: int, e: int, k: int, split: Split)
    requires
        split.newline_rule,
        blanks(c, i, e),
        i < k <= e,
        is_newline(c[k - 1]),
        forall|q: int| k <= q < e ==> !is_newline(#[trigger] c[q]),
        i + 1 < e,
    ensures
        piece_end(c, i, split) == k,
{
    assert(whitespace(c[i]));
    assert(whitespace(c[i + 1]) && !symbolic(c[i + 1]));
    lemma_run(c, i, e, Class::Space, c.len());
    lemma_newline(c, i, e, k);
}

/// Whitespace without a newline, or where newlines have no rule, is a piece to the end of the
/// text; before other text its last character is left to what follows, unless it has only one.
pub proof fn law_spaces_leave_one(c: Seq<char>, i: int, e: int, split: Split)
    requires
        blanks(c, i, e),
        !split.newline_rule || forall|q: int| i <= q < e ==> !is_newline(#[trigger] c[q]),
        i + 1 < e || e == c.len(),
    ensures
        e == c.len() ==> piece_end(c, i, split) == e,
        e < c.len() && i + 1 < e ==> piece_end(c, i, split) == e - 1,
{
    assert(whitespace(c[i]));
    if i + 1 < e {
        assert(whitespace(c[i + 1]) && !symbolic(c[i + 1]));
    }
    lemma_run(c, i, e, Class::Space, c.len());
    if split.newline_rule {
        lemma_newline(c, i, e, i);
    }
}

/// Contractions are pieces: an apostrophe with `s`, `t`, `m` or `d`, or with `re`, `ve` or `ll`,
/// in either case where the rule says so.
pub proof fn law_contractions_are_pieces(c: Seq<char>, i: int, split: Split)
    requires
        0 <= i,
        i + 3 <= c.len(),
        c[i] == '\'',
        c[i + 1] <= '\u{7f}' && c[i + 2] <= '\u{7f}',
    ensures
        c[i + 1] == 's' || c[i + 1] == 't' || c[i + 1] == 'm' || c[i + 1] == 'd' ==> piece_end(c, i, split) == i + 2,
        c[i + 1] == 'r' && c[i + 2] == 'e' || c[i + 1] == 'v' && c[i + 2] == 'e' || c[i + 1] == 'l' && c[i + 2] == 'l'
            ==> piece_end(c, i, split) == i + 3,
        split.ci_contractions && (c[i + 1] == 'S' || c[i + 1] == 'T' || c[i + 1] == 'M' || c[i + 1] == 'D') ==> piece_end(
            c,
            i,
            split,
        ) == i + 2,
        split.ci_contractions && (c[i + 1] == 'R' && c[i + 2] == 'E' || c[i + 1] == 'V' && c[i + 2] == 'E' || c[i + 1] == 'L'
            && c[i + 2] == 'L') ==> piece_end(c, i, split) == i + 3,
{
    reveal_strlit("'re");
    reveal_strlit("'ve");
    reveal_strlit("'ll");
    reveal_strlit("'s");
    reveal_strlit("'t");
    reveal_strlit("'m");
    reveal_strlit("'d");
    let tail = c.subrange(i, i + 3);
    let low = lowercase(tail);
    assert(crate::text::all_ascii(tail)) by {
        assert forall|q: int| 0 <= q < tail.len() implies crate::text::is_ascii(#[trigger] tail[q]) by {
            assert(tail[q] == c[i + q]);
        }
    }
    let t = if split.ci_contractions {
        low
    } else {
        tail
    };
    assert(t.len() == 3);
    assert(t[0] == '\'');
    assert(split.ci_contractions ==> t[1] == lower_ascii(c[i + 1]) && t[2] == lower_ascii(c[i + 2]));
    assert(!split.ci_contractions ==> t[1] == c[i + 1] && t[2] == c[i + 2]);
    lemma_begins(t, "'re"@);
    lemma_begins(t, "'ve"@);
    lemma_begins(t, "'ll"@);
    lemma_begins(t, "'s"@);
    lemma_begins(t, "'t"@);
    lemma_begins(t, "'m"@);
    lemma_begins(t, "'d"@);
    assert('R' as u32 + 32 == 'r' as u32);
}

proof fn lemma_begins(t: Seq<char>, p: Seq<char>)
    requires
        t.len() == 3,
        2 <= p.len() <= 3,
    ensures
        is_at(t, 0, p) <==> t[0] == p[0] && t[1] == p[1] && (p.len() == 3 ==> t[2] == p[2]),
{
    let u = t.subrange(0, p.len() as int);
    if u == p {
        assert(u[0] == p[0] && u[1] == p[1]);
        if p.len() == 3 {
            assert(u[2] == p[2]);
        }
    }
    if t[0] == p[0] && t[1] == p[1] && (p.len() == 3 ==> t[2] == p[2]) {
        assert(u =~= p);
    }
}

/// What a split rule takes from its pattern.
pub proof fn law_patterns_set_the_rules(pre: JsonV, re: Seq<char>)
    requires
        regex_in(pre) == Some(re),
    ensures
        has(re, "\\p{N}{1,3}"@) ==> split_of(pre).digits is Upto3,
        !crate::text::has(re, "\\p{N}{1,3}"@) && has(re, "\\p{N}+"@) ==> split_of(pre).digits is Run,
        !crate::text::has(re, "\\p{N}{1,3}"@) && !crate::text::has(re, "\\p{N}+"@) ==> split_of(pre).digits is Single,
        split_of(pre).word_any_prefix <==> has(re, "[^\\r\\n\\p{L}\\p{N}]?"@),
        split_of(pre).digit_space <==> has(re, " ?\\p{N}"@),
        split_of(pre).symbol_newline <==> has(re, "]+[\\r\\n]*"@),
        split_of(pre).newline_rule <==> has(re, "\\s*[\\r\\n]+"@),
        split_of(pre).ci_contractions <==> has(re, "(?i"@),
{
}

/// A text has another inside it where it stands between two others, and nowhere else.
pub proof fn law_has_is_found(s: Seq<char>, a: Seq<char>, p: Seq<char>, b: Seq<char>)
    ensures
        s == a + p + b ==> has(s, p),
        has(s, p) ==> exists|i: int| 0 <= i && i + p.len() <= s.len() && #[trigger] s.subrange(i, i + p.len()) == p,
{
    if s == a + p + b {
        assert(s.subrange(a.len() as int, a.len() as int + p.len()) =~= p);
        lemma_found(s, p, 0, a.len() as int);
    }
    if has(s, p) {
        crate::text::lemma_first_at(s, 0, p);
        let i = first_at(s, 0, p)->0;
        assert(s.subrange(i, i + p.len()) == p);
    }
}

proof fn lemma_found(s: Seq<char>, p: Seq<char>, from: int, at: int)
    requires
        0 <= from <= at,
        is_at(s, at, p),
    ensures
        first_at(s, from, p) is Some,
    decreases at - from,
{
    if from < at && !is_at(s, from, p) {
        lemma_found(s, p, from + 1, at);
    }
}

/// Without a pattern, text is cut as the first byte-level models cut it: words and runs of digits
/// with a space before them, and newlines without a rule.
pub proof fn law_no_pattern_is_the_classic_one(pre: JsonV)
    requires
        regex_in(pre) is None,
    ensures
        split_of(pre).digits is Run,
        split_of(pre).digit_space,
        !split_of(pre).word_any_prefix,
        !split_of(pre).symbol_newline,
        !split_of(pre).newline_rule,
        !split_of(pre).ci_contractions,
{
}

/// The pair that merges next has the lowest rank of all neighbouring pairs, and stands leftmost
/// among those of that rank; where no pair has a rank, none merges.
pub proof fn law_lowest_rank_merges_first(ranks: Map<(Seq<char>, Seq<char>), u32>, parts: Seq<Seq<char>>, i: int)
    requires
        0 <= i,
        i + 1 < parts.len(),
        ranks.dom().contains((parts[i], parts[i + 1])),
        forall|k: int|
            0 <= k && k + 1 < parts.len() && #[trigger] ranks.dom().contains((parts[k], parts[k + 1])) ==> if k < i {
                ranks[(parts[k], parts[k + 1])] > ranks[(parts[i], parts[i + 1])]
            } else {
                ranks[(parts[k], parts[k + 1])] >= ranks[(parts[i], parts[i + 1])]
            },
    ensures
        merged(ranks, parts) == merged(
            ranks,
            parts.subrange(0, i) + seq![parts[i] + parts[i + 1]] + parts.subrange(i + 2, parts.len() as int),
        ),
{
    let row = ranks_along(ranks, parts);
    assert forall|k: int| 0 <= k < row.len() && (#[trigger] row[k]) is Some implies if k < i {
        row[k]->0 > row[i]->0
    } else {
        row[k]->0 >= row[i]->0
    } by {
        assert(ranks.dom().contains((parts[k], parts[k + 1])));
    }
    assert(row[i] is Some);
    lemma_best(row, parts.len(), i);
    assert(merge_at(parts, i) =~= parts.subrange(0, i) + seq![parts[i] + parts[i + 1]] + parts.subrange(
        i + 2,
        parts.len() as int,
    ));
}

proof fn lemma_best(row: Seq<Option<u32>>, n: nat, i: int)
    requires
        0 <= i < n <= row.len(),
        row[i] is Some,
        forall|k: int|
            0 <= k < row.len() && (#[trigger] row[k]) is Some ==> if k < i {
                row[k]->0 > row[i]->0
            } else {
                row[k]->0 >= row[i]->0
            },
    ensures
        best_pair(row, n) == Some(i),
    decreases n,
{
    if i + 1 < n {
        lemma_best(row, (n - 1) as nat, i);
    } else {
        lemma_best_inside(row, i as nat);
    }
}

proof fn lemma_best_inside(row: Seq<Option<u32>>, n: nat)
    requires
        n <= row.len(),
    ensures
        best_pair(row, n) matches Some(j) ==> 0 <= j < n && row[j] is Some,
    decreases n,
{
    if n > 0 {
        lemma_best_inside(row, (n - 1) as nat);
    }
}

/// Merging stops where no neighbouring pair has a rank.
pub proof fn law_merging_stops(ranks: Map<(Seq<char>, Seq<char>), u32>, parts: Seq<Seq<char>>)
    requires
        forall|k: int| 0 <= k && k + 1 < parts.len() ==> !#[trigger] ranks.dom().contains((parts[k], parts[k + 1])),
    ensures
        merged(ranks, parts) == parts,
{
    lemma_best_inside(ranks_along(ranks, parts), parts.len());
    if best_pair(ranks_along(ranks, parts), parts.len()) is Some {
        let j = best_pair(ranks_along(ranks, parts), parts.len())->0;
        assert(rank_at(ranks, parts, j) is Some);
        assert(ranks.dom().contains((parts[j], parts[j + 1])));
    }
}

/// Merging starts from single characters.
pub proof fn law_words_start_as_characters(t: TokenizerV, word: Seq<char>, k: int)
    requires
        0 <= k < word.len(),
    ensures
        singles(word).len() == word.len(),
        singles(word)[k] == seq![word[k]],
        t.word_ids(word) == parts_ids(t.vocab, merged(t.ranks, singles(word)), merged(t.ranks, singles(word)).len()),
{
}

/// Where every part is in the vocabulary, there is one id for each, in order.
pub proof fn law_parts_have_their_ids(vocab: Map<Seq<char>, u32>, parts: Seq<Seq<char>>, n: nat)
    requires
        n <= parts.len(),
        forall|k: int| 0 <= k < parts.len() ==> vocab.dom().contains(#[trigger] parts[k]),
    ensures
        parts_ids(vocab, parts, n) == Seq::new(n, |k: int| vocab[parts[k]]),
    decreases n,
{
    if n > 0 {
        law_parts_have_their_ids(vocab, parts, (n - 1) as nat);
    }
    assert(parts_ids(vocab, parts, n) =~= Seq::new(n, |k: int| vocab[parts[k]]));
}

/// A part that is not in the vocabulary goes by its bytes, each under the name of its two
/// hexadecimal digits, where the vocabulary has those.
pub proof fn law_unknown_parts_go_by_bytes(vocab: Map<Seq<char>, u32>, p: Seq<char>)
    requires
        !vocab.dom().contains(p),
        forall|b: u8| vocab.dom().contains(#[trigger] byte_name(b)),
    ensures
        part_ids(vocab, p) == Seq::new(encode_utf8(p).len(), |k: int| vocab[byte_name(encode_utf8(p)[k])]),
{
    lemma_fallback(vocab, encode_utf8(p), encode_utf8(p).len());
}

proof fn lemma_fallback(vocab: Map<Seq<char>, u32>, bytes: Seq<u8>, n: nat)
    requires
        n <= bytes.len(),
        forall|b: u8| vocab.dom().contains(#[trigger] byte_name(b)),
    ensures
        fallback_ids(vocab, bytes, n) == Seq::new(n, |k: int| vocab[byte_name(bytes[k])]),
    decreases n,
{
    if n > 0 {
        lemma_fallback(vocab, bytes, (n - 1) as nat);
    }
    assert(fallback_ids(vocab, bytes, n) =~= Seq::new(n, |k: int| vocab[byte_name(bytes[k])]));
}

/// The name of a byte is read back as that byte.
pub proof fn law_byte_names_read_back(b: u8)
    ensures
        named_byte(byte_name(b)) == Some(b),
        byte_name(b).len() == 6,
        byte_name(b)[0] == '<' && byte_name(b)[1] == '0' && byte_name(b)[2] == 'x' && byte_name(b)[5] == '>',
{
    reveal_strlit("<0x");
    reveal_strlit(">");
    let name = byte_name(b);
    assert(name.subrange(0, 3) =~= "<0x"@);
    let d = name.subrange(3, 5);
    let hi = crate::tokenizer::hex_upper(b as int / 16);
    let lo = crate::tokenizer::hex_upper(b as int % 16);
    assert(d =~= seq![hi, lo]);
    assert(d.drop_last() =~= seq![hi]);
    assert(seq![hi].drop_last() =~= Seq::<char>::empty());
    reveal_with_fuel(crate::tokenizer::hex_number, 3);
    assert(hi != '+');
}

/// Printable characters of one byte stand for themselves, and the space and the newline for the
/// characters that byte-level vocabularies write them with.
pub proof fn law_byte_characters(b: u8)
    ensures
        0x21 <= b <= 0x7e || 0xa1 <= b <= 0xac || 0xae <= b ==> byte_char(b) as int == b,
        byte_char(32) == '\u{120}',
        byte_char(10) == '\u{10a}',
        byte_char(0) == '\u{100}',
        byte_char(127) == '\u{121}',
        byte_char(0xa0) == '\u{142}',
        byte_char(0xad) == '\u{143}',
        b <= 0x20 ==> byte_char(b) as int == 0x100 + b,
        0x7f <= b <= 0xa0 ==> byte_char(b) as int == 0x121 + (b - 0x7f),
{
}

/// The rank of a merge is its place in the list: the first place, where a pair is listed twice.
pub proof fn law_ranks_are_places(v: Seq<JsonV>, i: int)
    requires
        0 <= i < v.len() <= u32::MAX,
        merge_of(v[i]) is Some,
        forall|k: int| 0 <= k < i ==> merge_of(#[trigger] v[k]) != merge_of(v[i]),
    ensures
        ranks_of(v, v.len()).dom().contains(merge_of(v[i])->0),
        ranks_of(v, v.len())[merge_of(v[i])->0] == i,
{
    lemma_ranks(v, v.len(), i);
}

proof fn lemma_ranks(v: Seq<JsonV>, n: nat, i: int)
    requires
        0 <= i < v.len() <= u32::MAX,
        n <= v.len(),
        merge_of(v[i]) is Some,
        forall|k: int| 0 <= k < i ==> merge_of(#[trigger] v[k]) != merge_of(v[i]),
    ensures
        i < n ==> ranks_of(v, n).dom().contains(merge_of(v[i])->0) && ranks_of(v, n)[merge_of(v[i])->0] == i,
        i >= n ==> !ranks_of(v, n).dom().contains(merge_of(v[i])->0),
    decreases n,
{
    if n > 0 {
        lemma_ranks(v, (n - 1) as nat, i);
        if i >= n {
            assert(merge_of(v[n - 1]) != merge_of(v[i]));
        }
    }
}

/// A merge is written as one text with a space between its halves, or as a list of the two.
pub proof fn law_merges_are_read(a: Seq<char>, b: Seq<char>)
    ensures
        (forall|k: int| 0 <= k < a.len() ==> #[trigger] a[k] != ' ') ==> merge_of(JsonV::Str(a + seq![' '] + b)) == Some((a, b)),
        merge_of(JsonV::Arr(seq![JsonV::Str(a), JsonV::Str(b)])) == Some((a, b)),
{
    let s = a + seq![' '] + b;
    let n = a.len() as int;
    if forall|k: int| 0 <= k < a.len() ==> #[trigger] a[k] != ' ' {
        assert(s.subrange(n, n + 1) =~= seq![' ']);
        assert forall|k: int| 0 <= k < n implies !is_at(s, k, seq![' ']) by {
            if is_at(s, k, seq![' ']) {
                assert(s.subrange(k, k + 1)[0] == a[k]);
            }
        }
        lemma_first(s, seq![' '], 0, n);
        assert(s.subrange(0, n) =~= a);
        assert(s.subrange(n + 1, s.len() as int) =~= b);
    }
}

proof fn lemma_first(s: Seq<char>, p: Seq<char>, from: int, at: int)
    requires
        0 <= from <= at,
        is_at(s, at, p),
        forall|k: int| from <= k < at ==> !is_at(s, k, p),
    ensures
        first_at(s, from, p) == Some(at),
    decreases at - from,
{
    if from < at {
        lemma_first(s, p, from + 1, at);
    }
}

/// A text of the vocabulary has the number that is written beside it: the last, where it is
/// written more than once.
pub proof fn law_vocabulary_is_read(m: Seq<(Seq<char>, JsonV)>, i: int, id: u32)
    requires
        0 <= i < m.len(),
        m[i].1 == JsonV::Num(NumberV::Pos(id as u64)),
        forall|k: int| i < k < m.len() ==> (#[trigger] m[k]).0 != m[i].0,
    ensures
        vocab_of(m, m.len()).dom().contains(m[i].0),
        vocab_of(m, m.len())[m[i].0] == id,
{
    lemma_vocabulary(m, m.len(), i, id);
}

proof fn lemma_vocabulary(m: Seq<(Seq<char>, JsonV)>, n: nat, i: int, id: u32)
    requires
        0 <= i < n <= m.len(),
        m[i].1 == JsonV::Num(NumberV::Pos(id as u64)),
        forall|k: int| i < k < m.len() ==> (#[trigger] m[k]).0 != m[i].0,
    ensures
        vocab_of(m, n).dom().contains(m[i].0),
        vocab_of(m, n)[m[i].0] == id,
    decreases n,
{
    if i + 1 < n {
        assert(m[n - 1].0 != m[i].0);
        lemma_vocabulary(m, (n - 1) as nat, i, id);
    }
}

/// A text of metaspace words has its spaces replaced, with a separator before it where one is
/// prepended.
pub proof fn law_metaspace_replaces_spaces(t: TokenizerV, text: Seq<char>, s: Seq<char>)
    requires
        t.metaspace,
        s.len() == text.len(),
        forall|k: int| 0 <= k < text.len() ==> #[trigger] s[k] == (if text[k] == ' ' { '\u{2581}' } else { text[k] }),
    ensures
        t.prefix_space ==> t.plain_ids(text) == t.word_ids(seq!['\u{2581}'] + s),
        !t.prefix_space ==> t.plain_ids(text) == t.word_ids(s),
{
    assert(replaced(text, ' ', SEPARATOR) =~= s);
}

/// Byte-level text is cut into pieces, and the ids are those of the pieces, one after the other.
pub proof fn law_pieces_are_encoded_in_order(t: TokenizerV, text: Seq<char>, i: int)
    requires
        !t.metaspace,
    ensures
        t.plain_ids(text) == t.words_ids(pieces(text, 0, t.split), pieces(text, 0, t.split).len()),
        0 < i <= pieces(text, 0, t.split).len() ==> t.words_ids(pieces(text, 0, t.split), i as nat) == t.words_ids(
            pieces(text, 0, t.split),
            (i - 1) as nat,
        ) + t.word_ids(byte_level(pieces(text, 0, t.split)[i - 1])),
{
}

/// An added token that stands at the beginning of a text is taken whole: its id comes first, and
/// the rest is encoded as if on its own. Of several that stand there the first of the list is
/// taken.
pub proof fn law_added_tokens_are_taken_whole(t: TokenizerV, text: Seq<char>, k: int)
    requires
        0 <= k < t.added.len(),
        t.added[k].0.len() > 0,
        is_at(text, 0, t.added[k].0),
        forall|q: int| 0 <= q < k ==> !is_at(text, 0, (#[trigger] t.added[q]).0),
    ensures
        t.encode(text, None) == seq![t.added[k].1] + t.encode(
            text.subrange(t.added[k].0.len() as int, text.len() as int),
            None,
        ),
{
    lemma_added(t, text, 0, 0, k);
    let n = t.added[k].0.len() as int;
    let rest = text.subrange(n, text.len() as int);
    lemma_scan_shift(t, text, n, n, n);
    assert(rest.subrange(0, rest.len() as int) =~= rest);
    assert(t.encode(rest, None) =~= t.scan(rest, 0, 0));
    assert(t.encode(text, None) =~= seq![t.added[k].1] + t.scan(rest, 0, 0));
}

proof fn lemma_added(t: TokenizerV, text: Seq<char>, i: int, from: int, k: int)
    requires
        0 <= from <= k < t.added.len(),
        is_at(text, i, t.added[k].0),
        forall|q: int| 0 <= q < k ==> !is_at(text, i, (#[trigger] t.added[q]).0),
    ensures
        t.added_at(text, i, from) == Some(k),
    decreases k - from,
{
    if from < k {
        assert(!is_at(text, i, t.added[from].0));
        lemma_added(t, text, i, from + 1, k);
    }
}

proof fn lemma_added_shift(t: TokenizerV, text: Seq<char>, cut: int, i: int, from: int)
    requires
        0 <= cut <= i <= text.len(),
        0 <= from,
    ensures
        t.added_at(text, i, from) == t.added_at(text.subrange(cut, text.len() as int), i - cut, from),
    decreases t.added.len() - from,
{
    if from < t.added.len() {
        let p = t.added[from].0;
        let rest = text.subrange(cut, text.len() as int);
        if i + p.len() <= text.len() {
            assert(text.subrange(i, i + p.len()) =~= rest.subrange(i - cut, i - cut + p.len()));
        }
        lemma_added_shift(t, text, cut, i, from + 1);
    }
}

proof fn lemma_added_inside(t: TokenizerV, text: Seq<char>, i: int, from: int)
    requires
        0 <= from,
    ensures
        t.added_at(text, i, from) matches Some(k) ==> 0 <= k < t.added.len(),
    decreases t.added.len() - from,
{
    if from < t.added.len() {
        lemma_added_inside(t, text, i, from + 1);
    }
}

proof fn lemma_scan_shift(t: TokenizerV, text: Seq<char>, cut: int, start: int, i: int)
    requires
        0 <= cut <= start <= i <= text.len(),
    ensures
        t.scan(text, start, i) == t.scan(text.subrange(cut, text.len() as int), start - cut, i - cut),
    decreases text.len() - i,
{
    let rest = text.subrange(cut, text.len() as int);
    if i >= text.len() {
        if start < text.len() {
            assert(text.subrange(start, text.len() as int) =~= rest.subrange(start - cut, rest.len() as int));
        }
    } else {
        lemma_added_shift(t, text, cut, i, 0);
        lemma_added_inside(t, text, i, 0);
        match t.added_at(text, i, 0) {
            Some(k) if t.added[k].0.len() > 0 && i + t.added[k].0.len() <= text.len() => {
                let end = i + t.added[k].0.len();
                lemma_scan_shift(t, text, cut, end, end);
                assert(text.subrange(start, i) =~= rest.subrange(start - cut, i - cut));
            },
            _ => {
                lemma_scan_shift(t, text, cut, start, i + 1);
            },
        }
    }
}

/// The token that begins a sequence comes first, and changes nothing behind it.
pub proof fn law_bos_comes_first(t: TokenizerV, text: Seq<char>, bos: u32)
    ensures
        t.encode(text, Some(bos)) == seq![bos] + t.encode(text, None),
{
    assert(t.encode(text, None) =~= t.scan(text, 0, 0));
    assert(t.encode(text, Some(bos)) =~= seq![bos] + t.encode(text, None));
}

/// Text in which no added token stands is encoded by its words alone.
pub proof fn law_plain_text_is_words(t: TokenizerV, text: Seq<char>)
    requires
        text.len() > 0,
        forall|i: int, k: int|
            0 <= i < text.len() && 0 <= k < t.added.len() ==> !(#[trigger] is_at(text, i, t.added[k].0)),
    ensures
        t.encode(text, None) == t.plain_ids(text),
{
    lemma_plain(t, text, 0);
    assert(text.subrange(0, text.len() as int) =~= text);
    assert(t.encode(text, None) =~= t.plain_ids(text));
}

proof fn lemma_plain(t: TokenizerV, text: Seq<char>, i: int)
    requires
        0 <= i <= text.len(),
        text.len() > 0,
        forall|i: int, k: int|
            0 <= i < text.len() && 0 <= k < t.added.len() ==> !(#[trigger] is_at(text, i, t.added[k].0)),
    ensures
        t.scan(text, 0, i) == t.plain_ids(text.subrange(0, text.len() as int)),
    decreases text.len() - i,
{
    if i < text.len() {
        lemma_none(t, text, i, 0);
        lemma_plain(t, text, i + 1);
    }
}

proof fn lemma_none(t: TokenizerV, text: Seq<char>, i: int, from: int)
    requires
        0 <= i < text.len(),
        0 <= from,
        forall|i: int, k: int|
            0 <= i < text.len() && 0 <= k < t.added.len() ==> !(#[trigger] is_at(text, i, t.added[k].0)),
    ensures
        t.added_at(text, i, from) is None,
    decreases t.added.len() - from,
{
    if from < t.added.len() {
        assert(!is_at(text, i, t.added[from].0));
        lemma_none(t, text, i, from + 1);
    }
}

/// What a token stands for: a literal one for its own text; in metaspace, the byte that it names,
/// or its text with the separators made spaces; in byte-level text the bytes that its
/// characters stand for.
pub proof fn law_tokens_stand_for_bytes(t: TokenizerV, id: u32, b: Seq<u8>, plain: Seq<char>)
    requires
        id < t.tokens.len(),
    ensures
        t.literal[id as int] ==> t.token_bytes(id) == encode_utf8(t.tokens[id as int]),
        !t.literal[id as int] && t.metaspace && t.tokens[id as int] == "<0x0A>"@ ==> t.token_bytes(id) == seq![10u8],
        !t.literal[id as int] && t.metaspace && named_byte(t.tokens[id as int]) is None && plain.len()
            == t.tokens[id as int].len() && (forall|k: int|
            0 <= k < plain.len() ==> #[trigger] plain[k] == (if t.tokens[id as int][k] == '\u{2581}' {
                ' '
            } else {
                t.tokens[id as int][k]
            })) ==> t.token_bytes(id) == encode_utf8(plain),
        !t.literal[id as int] && !t.metaspace && t.tokens[id as int] == Seq::new(b.len(), |k: int| byte_char(b[k]))
            ==> t.token_bytes(id) == b,
{
    reveal_strlit("<0x0A>");
    law_byte_names_read_back(10);
    reveal_strlit("<0x");
    reveal_strlit(">");
    assert(byte_name(10) =~= "<0x0A>"@);
    let tok = t.tokens[id as int];
    if tok == Seq::new(b.len(), |k: int| byte_char(b[k])) {
        assert(crate::tokenizer::unmapped(tok) =~= b) by {
            assert forall|k: int| 0 <= k < b.len() implies crate::tokenizer::unmapped(tok)[k] == b[k] by {
                crate::tokenizer::law_byte_table(b[k]);
            }
        }
    }
    if plain.len() == tok.len() && (forall|k: int|
        0 <= k < plain.len() ==> #[trigger] plain[k] == (if tok[k] == '\u{2581}' {
            ' '
        } else {
            tok[k]
        })) {
        assert(replaced(tok, SEPARATOR, ' ') =~= plain);
    }
}

/// A decoder step strips a space where its type is `Strip`, its content a space, and its start
/// at least one.
pub proof fn law_strips_are_known(d: JsonV, n: u64)
    requires
        d.get("type"@) == Some(JsonV::Str("Strip"@)),
        d.get("content"@) == Some(JsonV::Str(" "@)),
        d.get("start"@) == Some(JsonV::Num(NumberV::Pos(n))),
    ensures
        is_strip(d) <==> n > 0,
{
}

} // verus!
