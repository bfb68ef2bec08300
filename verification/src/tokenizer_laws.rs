//! What holds of a tokenizer as a whole: decoding undoes encoding, and streaming
//! token by token gives the text that decoding gives at once.

use vstd::prelude::*;
use vstd::utf8::{
    decode_first_scalar, decode_utf8, decode_utf8_encode_utf8, encode_utf8, encode_utf8_decode_utf8, encode_utf8_valid_utf8,
    is_ascii_chars_encode_utf8, is_leading_byte_width_1, pop_first_scalar, valid_utf8,
};
use crate::text::{is_at, lemma_encode_concat, lemma_rest_valid};
use crate::tokenizer::{
    best_pair, byte_char, byte_level, byte_name, concat, emitted, fallback_ids, hex_byte, hex_number, hex_upper, hex_value,
    law_byte_table, law_pieces_cover, merge_at, merged, named_byte, part_ids, parts_ids, pieces, rank_at, ranks_along,
    replaced, singles, unmapped, StreamV, TokenizerV, SEPARATOR,
};

verus! {

/// A part that byte-level merging can leave is in the vocabulary, under an id
/// that stands for it.
pub open spec fn usable(t: TokenizerV, p: Seq<char>) -> bool {
    &&& t.vocab.dom().contains(p)
    &&& t.vocab[p] < t.tokens.len()
    &&& t.tokens[t.vocab[p] as int] == p
    &&& !t.literal[t.vocab[p] as int]
}

/// Every byte is in the vocabulary, and so is what every merge makes; every
/// added token stands under its id as it is written.
pub open spec fn complete(t: TokenizerV) -> bool {
    &&& !t.metaspace
    &&& forall|b: u8| usable(t, seq![#[trigger] byte_char(b)])
    &&& forall|p: (Seq<char>, Seq<char>)| #[trigger] t.ranks.dom().contains(p) ==> usable(t, p.0 + p.1)
    &&& forall|k: int|
        0 <= k < t.added.len() ==> {
            let a = #[trigger] t.added[k];
            a.0.len() > 0 && a.1 < t.tokens.len() && t.literal[a.1 as int] && t.tokens[a.1 as int] == a.0
        }
}

proof fn lemma_bytes_concat(t: TokenizerV, a: Seq<u32>, b: Seq<u32>)
    ensures
        t.bytes_of(a + b) == t.bytes_of(a) + t.bytes_of(b),
    decreases b.len(),
{
    if b.len() == 0 {
        assert(a + b =~= a);
        assert(t.bytes_of(a) + t.bytes_of(b) =~= t.bytes_of(a));
    } else {
        lemma_bytes_concat(t, a, b.drop_last());
        assert((a + b).drop_last() =~= a + b.drop_last());
        assert(t.bytes_of(a + b) =~= t.bytes_of(a) + t.bytes_of(b));
    }
}

proof fn lemma_bytes_one(t: TokenizerV, id: u32)
    ensures
        t.bytes_of(seq![id]) == t.token_bytes(id),
{
    reveal_with_fuel(TokenizerV::bytes_of, 2);
    assert(seq![id].drop_last() =~= Seq::<u32>::empty());
    assert(t.bytes_of(seq![id]) =~= t.token_bytes(id));
}

proof fn lemma_concat_push(v: Seq<Seq<char>>, p: Seq<char>)
    ensures
        concat(v.push(p)) == concat(v) + p,
    decreases v.len(),
{
    if v.len() == 0 {
        reveal_with_fuel(concat, 2);
        assert(v.push(p).drop_first() =~= Seq::<Seq<char>>::empty());
        assert(concat(v.push(p)) =~= concat(v) + p);
    } else {
        lemma_concat_push(v.drop_first(), p);
        assert(v.push(p).drop_first() =~= v.drop_first().push(p));
        assert(concat(v.push(p)) =~= concat(v) + p);
    }
}

proof fn lemma_concat_add(v: Seq<Seq<char>>, w: Seq<Seq<char>>)
    ensures
        concat(v + w) == concat(v) + concat(w),
    decreases v.len(),
{
    if v.len() == 0 {
        assert(v + w =~= w);
        assert(concat(v) + concat(w) =~= concat(w));
    } else {
        lemma_concat_add(v.drop_first(), w);
        assert((v + w).drop_first() =~= v.drop_first() + w);
        assert(concat(v + w) =~= concat(v) + concat(w));
    }
}

proof fn lemma_best_pair(row: Seq<Option<u32>>, n: nat)
    requires
        n <= row.len(),
    ensures
        best_pair(row, n) matches Some(i) ==> 0 <= i < n && row[i] is Some,
    decreases n,
{
    if n > 0 {
        lemma_best_pair(row, (n - 1) as nat);
    }
}

/// Making two parts one keeps the text.
proof fn lemma_merge_keeps(parts: Seq<Seq<char>>, i: int)
    requires
        0 <= i,
        i + 1 < parts.len(),
    ensures
        concat(merge_at(parts, i)) == concat(parts),
{
    let head = parts.subrange(0, i);
    let tail = parts.subrange(i + 2, parts.len() as int);
    assert(parts =~= head.push(parts[i]).push(parts[i + 1]) + tail);
    assert(merge_at(parts, i) =~= head.push(parts[i] + parts[i + 1]) + tail);
    lemma_concat_push(head, parts[i]);
    lemma_concat_push(head.push(parts[i]), parts[i + 1]);
    lemma_concat_push(head, parts[i] + parts[i + 1]);
    lemma_concat_add(head.push(parts[i]).push(parts[i + 1]), tail);
    lemma_concat_add(head.push(parts[i] + parts[i + 1]), tail);
    assert(concat(head) + parts[i] + parts[i + 1] =~= concat(head) + (parts[i] + parts[i + 1]));
}

/// Merging keeps the text and leaves only parts that can be written.
proof fn lemma_merged(t: TokenizerV, parts: Seq<Seq<char>>)
    requires
        complete(t),
        forall|i: int| 0 <= i < parts.len() ==> usable(t, #[trigger] parts[i]),
    ensures
        concat(merged(t.ranks, parts)) == concat(parts),
        forall|i: int|
            0 <= i < merged(t.ranks, parts).len() ==> usable(t, #[trigger] merged(t.ranks, parts)[i]),
    decreases parts.len(),
{
    let row = ranks_along(t.ranks, parts);
    lemma_best_pair(row, parts.len());
    match best_pair(row, parts.len()) {
        Some(i) if 0 <= i && i + 1 < parts.len() => {
            let next = merge_at(parts, i);
            assert(row[i] == rank_at(t.ranks, parts, i));
            assert(t.ranks.dom().contains((parts[i], parts[i + 1])));
            assert forall|k: int| 0 <= k < next.len() implies usable(t, #[trigger] next[k]) by {
                if k < i {
                    assert(next[k] == parts[k]);
                } else if k > i {
                    assert(next[k] == parts[k + 1]);
                } else {
                    assert(next[k] == parts[i] + parts[i + 1]);
                }
            }
            lemma_merged(t, next);
            lemma_merge_keeps(parts, i);
        },
        _ => {},
    }
}

proof fn lemma_parts(t: TokenizerV, parts: Seq<Seq<char>>, n: nat)
    requires
        complete(t),
        n <= parts.len(),
        forall|i: int| 0 <= i < parts.len() ==> usable(t, #[trigger] parts[i]),
    ensures
        t.bytes_of(parts_ids(t.vocab, parts, n)) == unmapped(concat(parts.subrange(0, n as int))),
    decreases n,
{
    if n == 0 {
        assert(parts.subrange(0, 0) =~= Seq::<Seq<char>>::empty());
        assert(unmapped(Seq::<char>::empty()) =~= Seq::<u8>::empty());
    } else {
        lemma_parts(t, parts, (n - 1) as nat);
        let p = parts[n - 1];
        assert(usable(t, p));
        let id = t.vocab[p];
        assert(part_ids(t.vocab, p) == seq![id]);
        lemma_bytes_concat(t, parts_ids(t.vocab, parts, (n - 1) as nat), seq![id]);
        lemma_bytes_one(t, id);
        assert(parts.subrange(0, n as int) =~= parts.subrange(0, n - 1).push(p));
        lemma_concat_push(parts.subrange(0, n - 1), p);
        assert(unmapped(concat(parts.subrange(0, n - 1)) + p) =~= unmapped(concat(parts.subrange(0, n - 1)))
            + unmapped(p));
    }
}

proof fn lemma_singles(word: Seq<char>)
    ensures
        concat(singles(word)) == word,
    decreases word.len(),
{
    if word.len() > 0 {
        lemma_singles(word.drop_first());
        assert(singles(word).drop_first() =~= singles(word.drop_first()));
        assert(concat(singles(word)) =~= word);
    }
}

proof fn lemma_word(t: TokenizerV, piece: Seq<char>)
    requires
        complete(t),
    ensures
        t.bytes_of(t.word_ids(byte_level(piece))) == encode_utf8(piece),
{
    let word = byte_level(piece);
    let parts = singles(word);
    assert forall|i: int| 0 <= i < parts.len() implies usable(t, #[trigger] parts[i]) by {
        assert(parts[i] == seq![byte_char(encode_utf8(piece)[i])]);
    }
    lemma_merged(t, parts);
    let m = merged(t.ranks, parts);
    lemma_parts(t, m, m.len());
    assert(m.subrange(0, m.len() as int) =~= m);
    lemma_singles(word);
    assert forall|i: int| 0 <= i < word.len() implies #[trigger] unmapped(word)[i] == encode_utf8(piece)[i] by {
        law_byte_table(encode_utf8(piece)[i]);
    }
    assert(unmapped(word) =~= encode_utf8(piece));
}

proof fn lemma_words(t: TokenizerV, words: Seq<Seq<char>>, n: nat)
    requires
        complete(t),
        n <= words.len(),
    ensures
        t.bytes_of(t.words_ids(words, n)) == encode_utf8(concat(words.subrange(0, n as int))),
    decreases n,
{
    if n == 0 {
        assert(words.subrange(0, 0) =~= Seq::<Seq<char>>::empty());
    } else {
        lemma_words(t, words, (n - 1) as nat);
        lemma_word(t, words[n - 1]);
        lemma_bytes_concat(t, t.words_ids(words, (n - 1) as nat), t.word_ids(byte_level(words[n - 1])));
        assert(words.subrange(0, n as int) =~= words.subrange(0, n - 1).push(words[n - 1]));
        lemma_concat_push(words.subrange(0, n - 1), words[n - 1]);
        lemma_encode_concat(concat(words.subrange(0, n - 1)), words[n - 1]);
    }
}

proof fn lemma_plain(t: TokenizerV, text: Seq<char>)
    requires
        complete(t),
    ensures
        t.bytes_of(t.plain_ids(text)) == encode_utf8(text),
{
    let w = pieces(text, 0, t.split);
    lemma_words(t, w, w.len());
    assert(w.subrange(0, w.len() as int) =~= w);
    law_pieces_cover(text, 0, t.split);
    assert(text.subrange(0, text.len() as int) =~= text);
}

proof fn lemma_added_at(t: TokenizerV, text: Seq<char>, i: int, k: int)
    requires
        0 <= k,
    ensures
        t.added_at(text, i, k) matches Some(q) ==> 0 <= q < t.added.len() && is_at(text, i, t.added[q].0),
    decreases t.added.len() - k,
{
    if k < t.added.len() && !is_at(text, i, t.added[k].0) {
        lemma_added_at(t, text, i, k + 1);
    }
}

proof fn lemma_scan(t: TokenizerV, text: Seq<char>, start: int, i: int)
    requires
        complete(t),
        0 <= start <= i <= text.len(),
    ensures
        t.bytes_of(t.scan(text, start, i)) == encode_utf8(text.subrange(start, text.len() as int)),
    decreases text.len() - i,
{
    if i >= text.len() {
        if start < text.len() {
            lemma_plain(t, text.subrange(start, text.len() as int));
        } else {
            assert(text.subrange(start, text.len() as int) =~= Seq::<char>::empty());
        }
    } else {
        lemma_added_at(t, text, i, 0);
        match t.added_at(text, i, 0) {
            Some(k) => {
                let content = t.added[k].0;
                let id = t.added[k].1;
                let end = i + content.len();
                lemma_scan(t, text, end, end);
                let plain = if start < i {
                    t.plain_ids(text.subrange(start, i))
                } else {
                    Seq::empty()
                };
                if start < i {
                    lemma_plain(t, text.subrange(start, i));
                } else {
                    assert(text.subrange(start, i) =~= Seq::<char>::empty());
                }
                lemma_bytes_concat(t, plain + seq![id], t.scan(text, end, end));
                lemma_bytes_concat(t, plain, seq![id]);
                lemma_bytes_one(t, id);
                lemma_encode_concat(text.subrange(start, i), content);
                lemma_encode_concat(
                    text.subrange(start, i) + content,
                    text.subrange(end, text.len() as int),
                );
                assert(text.subrange(i, end) == content);
                assert(text.subrange(start, i) + content + text.subrange(end, text.len() as int) =~= text.subrange(
                    start,
                    text.len() as int,
                ));
            },
            None => {
                lemma_scan(t, text, start, i + 1);
            },
        }
    }
}

/// Decoding gives back what encoding wrote: with a byte-level vocabulary that is
/// complete, the bytes of the ids of a text are the bytes of the text.
pub proof fn law_round_trip(t: TokenizerV, text: Seq<char>)
    requires
        complete(t),
    ensures
        t.bytes_of(t.encode(text, None)) == encode_utf8(text),
        valid_utf8(t.bytes_of(t.encode(text, None))),
        decode_utf8(t.bytes_of(t.encode(text, None))) == text,
{
    lemma_scan(t, text, 0, 0);
    assert(Seq::<u32>::empty() + t.scan(text, 0, 0) =~= t.scan(text, 0, 0));
    assert(text.subrange(0, text.len() as int) =~= text);
    encode_utf8_valid_utf8(text);
    encode_utf8_decode_utf8(text);
}

/// A part that a sentencepiece-style vocabulary has, under an id that stands for it.
pub open spec fn listed(t: TokenizerV, p: Seq<char>) -> bool {
    usable(t, p) && named_byte(p) is None
}

/// A part that can be written: one of the vocabulary, or a single character that is
/// written byte by byte.
pub open spec fn writable(t: TokenizerV, p: Seq<char>) -> bool {
    listed(t, p) || (p.len() == 1 && p[0] != SEPARATOR && !t.vocab.dom().contains(p))
}

/// Every byte has a name in the vocabulary, what every merge makes is in it, and so is
/// the separator that spaces become; a character that is in it stands for itself.
pub open spec fn complete_pieces(t: TokenizerV) -> bool {
    &&& t.metaspace
    &&& forall|b: u8| usable(t, #[trigger] byte_name(b))
    &&& forall|p: (Seq<char>, Seq<char>)| #[trigger] t.ranks.dom().contains(p) ==> listed(t, p.0 + p.1)
    &&& listed(t, seq![SEPARATOR])
    &&& forall|c: char| t.vocab.dom().contains(#[trigger] seq![c]) ==> listed(t, seq![c])
}

/// The name of a byte names it.
proof fn lemma_byte_name(b: u8)
    ensures
        named_byte(byte_name(b)) == Some(b),
{
    let hi = b as int / 16;
    let lo = b as int % 16;
    let name = byte_name(b);
    reveal_strlit("<0x");
    reveal_strlit(">");
    let digits = seq![hex_upper(hi), hex_upper(lo)];
    assert(name.subrange(3, name.len() - 1) =~= digits);
    assert(name.subrange(0, 3) =~= "<0x"@);
    assert(hex_value(hex_upper(hi)) == Some(hi));
    assert(hex_value(hex_upper(lo)) == Some(lo));
    assert(digits.drop_last() =~= seq![hex_upper(hi)]);
    assert(seq![hex_upper(hi)].drop_last() =~= Seq::<char>::empty());
    assert(hex_number(Seq::<char>::empty()) == Some(0int));
    assert(hex_number(seq![hex_upper(hi)]) == Some(hi));
    assert(hex_number(digits) == Some(16 * hi + lo));
    assert(digits[0] != '+');
    assert(hex_byte(digits) == Some(b));
}

/// Bytes that are written by name read back as themselves.
proof fn lemma_fallback(t: TokenizerV, bytes: Seq<u8>, n: nat)
    requires
        complete_pieces(t),
        n <= bytes.len(),
    ensures
        t.bytes_of(fallback_ids(t.vocab, bytes, n)) == bytes.take(n as int),
    decreases n,
{
    if n == 0 {
        assert(bytes.take(0) =~= Seq::<u8>::empty());
    } else {
        lemma_fallback(t, bytes, (n - 1) as nat);
        let b = bytes[n - 1];
        let name = byte_name(b);
        assert(usable(t, name));
        lemma_byte_name(b);
        let before = fallback_ids(t.vocab, bytes, (n - 1) as nat);
        let id = t.vocab[name];
        assert(before.push(id).drop_last() =~= before);
        assert(t.token_bytes(id) == seq![b]);
        assert(bytes.take(n as int) =~= bytes.take(n - 1) + seq![b]);
    }
}

/// The ids of a part that can be written stand for its text, with spaces for separators.
proof fn lemma_part(t: TokenizerV, p: Seq<char>)
    requires
        complete_pieces(t),
        writable(t, p),
    ensures
        t.bytes_of(part_ids(t.vocab, p)) == encode_utf8(replaced(p, SEPARATOR, ' ')),
{
    if listed(t, p) {
        lemma_bytes_one(t, t.vocab[p]);
    } else {
        let bytes = encode_utf8(p);
        lemma_fallback(t, bytes, bytes.len());
        assert(bytes.take(bytes.len() as int) =~= bytes);
        assert(replaced(p, SEPARATOR, ' ') =~= p);
    }
}

/// Merging keeps the text and leaves only parts that can be written.
proof fn lemma_merged_pieces(t: TokenizerV, parts: Seq<Seq<char>>)
    requires
        complete_pieces(t),
        forall|i: int| 0 <= i < parts.len() ==> writable(t, #[trigger] parts[i]),
    ensures
        concat(merged(t.ranks, parts)) == concat(parts),
        forall|i: int|
            0 <= i < merged(t.ranks, parts).len() ==> writable(t, #[trigger] merged(t.ranks, parts)[i]),
    decreases parts.len(),
{
    let row = ranks_along(t.ranks, parts);
    lemma_best_pair(row, parts.len());
    match best_pair(row, parts.len()) {
        Some(i) if 0 <= i && i + 1 < parts.len() => {
            let next = merge_at(parts, i);
            assert(row[i] == rank_at(t.ranks, parts, i));
            assert(t.ranks.dom().contains((parts[i], parts[i + 1])));
            assert forall|k: int| 0 <= k < next.len() implies writable(t, #[trigger] next[k]) by {
                if k < i {
                    assert(next[k] == parts[k]);
                } else if k > i {
                    assert(next[k] == parts[k + 1]);
                } else {
                    assert(next[k] == parts[i] + parts[i + 1]);
                }
            }
            lemma_merged_pieces(t, next);
            lemma_merge_keeps(parts, i);
        },
        _ => {},
    }
}

/// The ids of parts that can be written stand for their text.
proof fn lemma_parts_pieces(t: TokenizerV, parts: Seq<Seq<char>>, n: nat)
    requires
        complete_pieces(t),
        n <= parts.len(),
        forall|i: int| 0 <= i < parts.len() ==> writable(t, #[trigger] parts[i]),
    ensures
        t.bytes_of(parts_ids(t.vocab, parts, n)) == encode_utf8(replaced(concat(parts.subrange(0, n as int)), SEPARATOR, ' ')),
    decreases n,
{
    if n == 0 {
        assert(parts.subrange(0, 0) =~= Seq::<Seq<char>>::empty());
        assert(replaced(Seq::<char>::empty(), SEPARATOR, ' ') =~= Seq::<char>::empty());
    } else {
        lemma_parts_pieces(t, parts, (n - 1) as nat);
        let p = parts[n - 1];
        lemma_part(t, p);
        lemma_bytes_concat(t, parts_ids(t.vocab, parts, (n - 1) as nat), part_ids(t.vocab, p));
        let head = concat(parts.subrange(0, n - 1));
        assert(parts.subrange(0, n as int) =~= parts.subrange(0, n - 1).push(p));
        lemma_concat_push(parts.subrange(0, n - 1), p);
        assert(replaced(head + p, SEPARATOR, ' ') =~= replaced(head, SEPARATOR, ' ') + replaced(p, SEPARATOR, ' '));
        lemma_encode_concat(replaced(head, SEPARATOR, ' '), replaced(p, SEPARATOR, ' '));
    }
}

/// A text in which no added token stands is encoded as it is.
proof fn lemma_scan_plain(t: TokenizerV, text: Seq<char>, i: int)
    requires
        0 <= i <= text.len(),
        text.len() > 0,
        forall|k: int| 0 <= k < text.len() ==> (#[trigger] t.added_at(text, k, 0)) is None,
    ensures
        t.scan(text, 0, i) == t.plain_ids(text),
    decreases text.len() - i,
{
    if i < text.len() {
        assert(t.added_at(text, i, 0) is None);
        lemma_scan_plain(t, text, i + 1);
    } else {
        assert(text.subrange(0, text.len() as int) =~= text);
    }
}

/// The space that a sentencepiece-style tokenizer writes before a text is the space that it
/// drops when it reads the text back, so a round trip gains none: with a vocabulary that is
/// complete, a text without separators and without added tokens decodes as itself.
pub proof fn law_pieces_round_trip(t: TokenizerV, text: Seq<char>)
    requires
        complete_pieces(t),
        t.prefix_space == t.strip_space,
        !text.contains(SEPARATOR),
        forall|k: int| 0 <= k < text.len() ==> (#[trigger] t.added_at(text, k, 0)) is None,
    ensures
        valid_utf8(t.bytes_of(t.encode(text, None))),
        t.decode_valid(t.encode(text, None)) == text,
{
    let ids = t.encode(text, None);
    assert(ids =~= t.scan(text, 0, 0));
    if text.len() == 0 {
        encode_utf8_valid_utf8(text);
        encode_utf8_decode_utf8(text);
        assert(t.bytes_of(ids) =~= encode_utf8(text));
        assert(text =~= Seq::<char>::empty());
    } else {
        lemma_scan_plain(t, text, 0);
        let s = replaced(text, ' ', SEPARATOR);
        let word = if t.prefix_space {
            seq![SEPARATOR] + s
        } else {
            s
        };
        let parts = singles(word);
        assert forall|i: int| 0 <= i < parts.len() implies writable(t, #[trigger] parts[i]) by {
            assert(parts[i] == seq![word[i]]);
        }
        lemma_merged_pieces(t, parts);
        let m = merged(t.ranks, parts);
        lemma_parts_pieces(t, m, m.len());
        assert(m.subrange(0, m.len() as int) =~= m);
        lemma_singles(word);
        let back = replaced(word, SEPARATOR, ' ');
        let whole = if t.prefix_space {
            seq![' '] + text
        } else {
            text
        };
        assert forall|i: int| 0 <= i < back.len() implies #[trigger] back[i] == whole[i] by {
            if t.prefix_space && i > 0 {
                assert(text.contains(text[i - 1]));
            }
            if !t.prefix_space {
                assert(text.contains(text[i]));
            }
        }
        assert(back =~= whole);
        assert(t.bytes_of(ids) == encode_utf8(whole));
        encode_utf8_valid_utf8(whole);
        encode_utf8_decode_utf8(whole);
        assert(t.prefix_space ==> whole.drop_first() =~= text);
    }
}

/// The bytes of some tokens, without the leading space that the decoder drops.
pub open spec fn shown_bytes(t: TokenizerV, ids: Seq<u32>) -> Seq<u8> {
    let b = t.bytes_of(ids);
    if t.strip_space && b.len() > 0 && b[0] == 32 {
        b.drop_first()
    } else {
        b
    }
}

/// One token fed to a stream: the texts and states that `Stream::push` promises.
pub open spec fn pushed(t: TokenizerV, before: StreamV, id: u32, out: Seq<char>, after: StreamV) -> bool {
    &&& out == before.text(t, id)
    &&& after == before.after(t, id)
    &&& forall|more: Seq<u8>|
        valid_utf8(#[trigger] (before.filled(t, id) + more)) ==> encode_utf8(out) + after.buf == before.filled(t, id)
}

/// Tokens fed one by one to a fresh stream.
pub open spec fn streamed(t: TokenizerV, ids: Seq<u32>, outs: Seq<Seq<char>>, states: Seq<StreamV>) -> bool {
    &&& outs.len() == ids.len()
    &&& states.len() == ids.len() + 1
    &&& states[0] == (StreamV { buf: Seq::empty(), started: false })
    &&& forall|k: int|
        0 <= k < ids.len() ==> pushed(t, states[k], #[trigger] ids[k], outs[k], states[k + 1])
}

/// What has been shown and what waits, once one more token has arrived.
proof fn lemma_filled(t: TokenizerV, head: Seq<u32>, id: u32, shown: Seq<u8>, s: StreamV)
    requires
        shown + s.buf == shown_bytes(t, head),
        s.started == (t.bytes_of(head).len() > 0),
    ensures
        shown + s.filled(t, id) == shown_bytes(t, head.push(id)),
        s.after(t, id).started == (t.bytes_of(head.push(id)).len() > 0),
{
    assert(head.push(id).drop_last() =~= head);
    let more = t.token_bytes(id);
    assert(t.bytes_of(head.push(id)) == t.bytes_of(head) + more);
    if !s.started {
        assert(shown.len() == 0 && s.buf.len() == 0) by {
            assert((shown + s.buf).len() == 0);
        }
        assert(s.buf + more =~= t.bytes_of(head.push(id)));
        assert(shown + s.filled(t, id) =~= s.filled(t, id));
    } else {
        assert(shown_bytes(t, head.push(id)) =~= shown_bytes(t, head) + more);
        assert(shown + (s.buf + more) =~= (shown + s.buf) + more);
    }
}

/// Tokens that come later only add bytes at the end of what is shown.
proof fn lemma_shown_grows(t: TokenizerV, now: Seq<u32>, rest: Seq<u32>) -> (tail: Seq<u8>)
    ensures
        shown_bytes(t, now) + tail == shown_bytes(t, now + rest),
{
    lemma_bytes_concat(t, now, rest);
    let more = t.bytes_of(rest);
    let tail = if t.bytes_of(now).len() == 0 && t.strip_space && more.len() > 0 && more[0] == 32 {
        more.drop_first()
    } else {
        more
    };
    assert(shown_bytes(t, now) + tail =~= shown_bytes(t, now + rest));
    tail
}

proof fn lemma_streamed(t: TokenizerV, ids: Seq<u32>, outs: Seq<Seq<char>>, states: Seq<StreamV>, k: int)
    requires
        streamed(t, ids, outs, states),
        valid_utf8(shown_bytes(t, ids)),
        0 <= k <= ids.len(),
    ensures
        encode_utf8(concat(outs.subrange(0, k))) + states[k].buf == shown_bytes(t, ids.subrange(0, k)),
        states[k].started == (t.bytes_of(ids.subrange(0, k)).len() > 0),
    decreases k,
{
    if k == 0 {
        assert(outs.subrange(0, 0) =~= Seq::<Seq<char>>::empty());
        assert(ids.subrange(0, 0) =~= Seq::<u32>::empty());
        assert(encode_utf8(concat(outs.subrange(0, 0))) + states[0].buf =~= shown_bytes(t, ids.subrange(0, 0)));
    } else {
        lemma_streamed(t, ids, outs, states, k - 1);
        let id = ids[k - 1];
        let s = states[k - 1];
        let text = concat(outs.subrange(0, k - 1));
        let b = s.filled(t, id);
        let now = ids.subrange(0, k);
        assert(now =~= ids.subrange(0, k - 1).push(id));
        lemma_filled(t, ids.subrange(0, k - 1), id, encode_utf8(text), s);
        assert(now + ids.subrange(k, ids.len() as int) =~= ids);
        let tail = lemma_shown_grows(t, now, ids.subrange(k, ids.len() as int));
        assert((encode_utf8(text) + b) + tail =~= encode_utf8(text) + (b + tail));
        lemma_rest_valid(text, b + tail);
        assert(pushed(t, s, id, outs[k - 1], states[k]));
        assert(encode_utf8(outs[k - 1]) + states[k].buf == b);
        assert(outs.subrange(0, k) =~= outs.subrange(0, k - 1).push(outs[k - 1]));
        lemma_concat_push(outs.subrange(0, k - 1), outs[k - 1]);
        lemma_encode_concat(text, outs[k - 1]);
        assert(encode_utf8(concat(outs.subrange(0, k))) + states[k].buf =~= encode_utf8(text) + (encode_utf8(
            outs[k - 1],
        ) + states[k].buf));
    }
}

/// The leading space that the decoder drops is one character and one byte.
proof fn lemma_leading_space(b: Seq<u8>)
    requires
        valid_utf8(b),
        b.len() > 0,
    ensures
        decode_utf8(b).len() > 0,
        (decode_utf8(b)[0] == ' ') == (b[0] == 32),
        b[0] == 32 ==> valid_utf8(b.drop_first()) && decode_utf8(b.drop_first()) == decode_utf8(b).drop_first(),
{
    let text = decode_utf8(b);
    if b[0] == 32 {
        assert(32u8 & 0x7f == 32u8) by (bit_vector);
        assert(is_leading_byte_width_1(b[0]));
        assert(decode_first_scalar(b) == 32);
        assert(pop_first_scalar(b) =~= b.drop_first());
        assert(text.drop_first() =~= decode_utf8(b.drop_first()));
    } else if text[0] == ' ' {
        decode_utf8_encode_utf8(b);
        let one = seq![' '];
        assert(text =~= one + text.drop_first());
        lemma_encode_concat(one, text.drop_first());
        is_ascii_chars_encode_utf8(one);
        assert(encode_utf8(one)[0] == one[0] as u8);
    }
}

/// Streaming never shows a broken character: token by token it gives the text
/// that decoding gives at once, and at the end nothing is held back.
pub proof fn law_stream_is_decode(t: TokenizerV, ids: Seq<u32>, outs: Seq<Seq<char>>, states: Seq<StreamV>)
    requires
        streamed(t, ids, outs, states),
        valid_utf8(t.bytes_of(ids)),
    ensures
        concat(outs) == t.decode_valid(ids),
        states.last().buf == Seq::<u8>::empty(),
{
    let n = ids.len() as int;
    if t.bytes_of(ids).len() > 0 {
        lemma_leading_space(t.bytes_of(ids));
    }
    lemma_streamed(t, ids, outs, states, n);
    assert(ids.subrange(0, n) =~= ids);
    assert(outs.subrange(0, n) =~= outs);
    if n > 0 {
        lemma_streamed(t, ids, outs, states, n - 1);
        let id = ids[n - 1];
        let s = states[n - 1];
        let text = concat(outs.subrange(0, n - 1));
        assert(ids.subrange(0, n - 1).push(id) =~= ids);
        lemma_filled(t, ids.subrange(0, n - 1), id, encode_utf8(text), s);
        // The last buffer is valid as a whole, so all of it is shown.
        lemma_rest_valid(text, s.filled(t, id));
        assert(pushed(t, s, id, outs[n - 1], states[n]));
        assert(emitted(s.filled(t, id)).1 == Seq::<u8>::empty());
    }
    assert(encode_utf8(concat(outs)) + states[n].buf =~= encode_utf8(concat(outs)));
    encode_utf8_decode_utf8(concat(outs));
    assert(decode_utf8(shown_bytes(t, ids)) == t.decode_valid(ids));
}

} // verus!
