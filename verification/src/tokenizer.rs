//! A small BPE tokenizer that reads Hugging Face `tokenizer.json` directly.
//!
//! Covers the pre-tokenizers these checkpoints actually ship: byte-level
//! (GPT-2 style) and metaspace (sentencepiece-style). Added and special tokens
//! are matched before anything else, so chat control tokens survive.

use vstd::prelude::*;
use vstd::hash_map::StringHashMap;
use vstd::string::*;
use vstd::utf8::{decode_utf8, decode_utf8_encode_utf8, encode_utf8, is_scalar, valid_utf8};
use crate::json::{Json, JsonV, elements, entries, entry_from, text_of};
use crate::parse::{parse_file, parsed};
use crate::text::{lemma_encode_concat, lemma_rest_valid};
use crate::vocabulary::{Entry, Listing};
use crate::text::{alphabetic, lowercase, numeric, whitespace};
use crate::text::{at, bytes_of, chars_of, contains, find, first_at, has, is_at, join, substring};

verus! {

/// The separator that sentencepiece-style vocabularies write for a space.
pub const SEPARATOR: char = '\u{2581}';

#[derive(PartialEq, Eq, Clone, Copy, Structural)]
pub enum Digits {
    /// `\p{N}`: one token per digit.
    Single,
    /// `\p{N}{1,3}`: groups of at most three.
    Upto3,
    /// `\p{N}+`: whole runs.
    Run,
}

/// The byte-level split rule, read off the `Split` regex the tokenizer declares.
///
/// Every checkpoint in this family uses the same alternation, differing only in
/// how digits are grouped, whether a word may absorb any non-alphanumeric
/// character or only a space, and how newlines attach, so the rule is modelled
/// by those flags instead of by a regex engine.
#[derive(PartialEq, Eq, Clone, Copy, Structural)]
pub struct Split {
    pub word_any_prefix: bool,
    pub digits: Digits,
    pub digit_space: bool,
    pub symbol_newline: bool,
    pub newline_rule: bool,
    pub ci_contractions: bool,
}

/// A tokenizer: vocabulary, merge ranks and the rules around them.
pub struct Tokenizer {
    pub(crate) vocab: StringHashMap<u32>,
    /// The texts by id, added tokens included.
    pub(crate) listing: Listing,
    /// Merge ranks, under a key made of both halves (see [`pair_key`]).
    pub(crate) ranks: StringHashMap<u32>,
    pub(crate) added: Vec<(String, u32)>,
    pub(crate) metaspace: bool,
    pub(crate) prefix_space: bool,
    /// The decoder undoes `Prepend` by stripping one leading space.
    pub(crate) strip_space: bool,
    pub(crate) split: Split,
}

/// What a [`Tokenizer`] holds.
pub struct TokenizerV {
    pub vocab: Map<Seq<char>, u32>,
    pub tokens: Seq<Seq<char>>,
    pub ranks: Map<(Seq<char>, Seq<char>), u32>,
    pub added: Seq<(Seq<char>, u32)>,
    pub special: Seq<bool>,
    pub literal: Seq<bool>,
    pub metaspace: bool,
    pub prefix_space: bool,
    pub strip_space: bool,
    pub split: Split,
}

/// The texts of some strings.
pub open spec fn texts(v: Seq<String>) -> Seq<Seq<char>> {
    Seq::new(v.len(), |i: int| v[i]@)
}

/// One key for two strings: as many marks as the first has characters, a stop,
/// and then both. Different pairs have different keys.
pub open spec fn pair_key(a: Seq<char>, b: Seq<char>) -> Seq<char> {
    Seq::new(a.len(), |i: int| '1') + seq!['0'] + a + b
}

proof fn lemma_pair_key(a: Seq<char>, b: Seq<char>, c: Seq<char>, d: Seq<char>)
    requires
        pair_key(a, b) == pair_key(c, d),
    ensures
        a == c,
        b == d,
{
    let k = pair_key(a, b);
    let n = a.len() as int;
    let m = c.len() as int;
    assert(k[n] == '0');
    assert(pair_key(c, d)[m] == '0');
    if n < m {
        assert(pair_key(c, d)[n] == '1');
    } else if m < n {
        assert(k[m] == '1');
    }
    assert(a =~= k.subrange(n + 1, 2 * n + 1));
    assert(c =~= pair_key(c, d).subrange(n + 1, 2 * n + 1));
    assert(b =~= k.subrange(2 * n + 1, k.len() as int));
    assert(d =~= pair_key(c, d).subrange(2 * n + 1, k.len() as int));
}

/// The ranks that a map under pair keys holds.
pub open spec fn ranks_view(m: Map<Seq<char>, u32>) -> Map<(Seq<char>, Seq<char>), u32> {
    Map::new(
        |p: (Seq<char>, Seq<char>)| m.dom().contains(pair_key(p.0, p.1)),
        |p: (Seq<char>, Seq<char>)| m[pair_key(p.0, p.1)],
    )
}

fn key_of(a: &str, b: &str) -> (r: String)
    ensures
        r@ == pair_key(a@, b@),
{
    let ac = chars_of(a);
    let mut out = String::new();
    let mut i: usize = 0;
    while i < ac.len()
        invariant
            i <= ac@.len(),
            out@ == Seq::new(i as nat, |k: int| '1'),
        decreases ac.len() - i,
    {
        out.push('1');
        i += 1;
        assert(out@ =~= Seq::new(i as nat, |k: int| '1'));
    }
    out.push('0');
    out.append(a);
    out.append(b);
    assert(out@ =~= pair_key(a@, b@));
    out
}

impl View for Tokenizer {
    type V = TokenizerV;

    closed spec fn view(&self) -> TokenizerV {
        TokenizerV {
            vocab: self.vocab@,
            tokens: self.listing.texts(),
            ranks: ranks_view(self.ranks@),
            added: Seq::new(self.added@.len(), |i: int| (self.added@[i].0@, self.added@[i].1)),
            special: self.listing.specials(),
            literal: self.listing.literals(),
            metaspace: self.metaspace,
            prefix_space: self.prefix_space,
            strip_space: self.strip_space,
            split: self.split,
        }
    }
}

// ------------------------------------------------------------- the byte table

/// Whether the byte stands for itself in byte-level text.
pub open spec fn is_printable(b: int) -> bool {
    0x21 <= b <= 0x7e || 0xa1 <= b <= 0xac || 0xae <= b <= 0xff
}

/// The code point that stands for a byte in byte-level text: itself where it is
/// printable, else the next one from 256 upwards.
pub open spec fn byte_point(b: int) -> int {
    if is_printable(b) {
        b
    } else if b <= 0x20 {
        256 + b
    } else if b <= 0xa0 {
        289 + (b - 0x7f)
    } else {
        323
    }
}

/// The character that stands for a byte.
pub open spec fn byte_char(b: u8) -> char {
    byte_point(b as int) as char
}

/// The byte that a character stands for, if it stands for one.
pub open spec fn char_byte(c: char) -> Option<u8> {
    let v = c as int;
    if is_printable(v) {
        Some(v as u8)
    } else if 256 <= v <= 288 {
        Some((v - 256) as u8)
    } else if 289 <= v <= 322 {
        Some((v - 289 + 0x7f) as u8)
    } else if v == 323 {
        Some(0xad)
    } else {
        None
    }
}

/// The byte table is a bijection: each byte has a character of its own.
pub proof fn law_byte_table(b: u8)
    ensures
        char_byte(byte_char(b)) == Some(b),
{
}

/// `char::from_u32` gives the character of a code point, where the number is a
/// Unicode scalar value.
pub assume_specification[ char::from_u32 ](i: u32) -> (r: Option<char>)
    ensures
        r == (if is_scalar(i) { Some(i as char) } else { None }),
;

fn char_for(b: u8) -> (c: char)
    ensures
        c == byte_char(b),
{
    let v: u32 = b as u32;
    let point: u32 = if (0x21 <= v && v <= 0x7e) || (0xa1 <= v && v <= 0xac) || 0xae <= v {
        v
    } else if v <= 0x20 {
        256 + v
    } else if v <= 0xa0 {
        289 + (v - 0x7f)
    } else {
        323
    };
    match char::from_u32(point) {
        Some(c) => c,
        None => '?',
    }
}

fn byte_for(c: char) -> (r: Option<u8>)
    ensures
        r == char_byte(c),
{
    let v: u32 = c as u32;
    if (0x21 <= v && v <= 0x7e) || (0xa1 <= v && v <= 0xac) || (0xae <= v && v <= 0xff) {
        Some(v as u8)
    } else if 256 <= v && v <= 288 {
        Some((v - 256) as u8)
    } else if 289 <= v && v <= 322 {
        Some((v - 289 + 0x7f) as u8)
    } else if v == 323 {
        Some(0xad)
    } else {
        None
    }
}

/// The GPT-2 byte to printable-codepoint bijection.
pub fn byte_table() -> (map: Vec<char>)
    ensures
        map@ == Seq::new(256, |b: int| byte_char(b as u8)),
{
    let mut map: Vec<char> = Vec::new();
    let mut b: u16 = 0;
    while b < 256
        invariant
            b <= 256,
            map@ == Seq::new(b as nat, |k: int| byte_char(k as u8)),
        decreases 256 - b,
    {
        map.push(char_for(b as u8));
        b += 1;
        assert(map@ =~= Seq::new(b as nat, |k: int| byte_char(k as u8)));
    }
    map
}

// ------------------------------------------------------------ the split rules

/// The classes of characters that the split rules speak of.
#[derive(PartialEq, Eq, Clone, Copy, Structural)]
pub enum Class {
    Letter,
    Number,
    /// Neither a letter nor a number nor whitespace.
    Symbol,
    Space,
    Newline,
}

pub open spec fn is_newline(c: char) -> bool {
    c == '\r' || c == '\n'
}

pub open spec fn in_class(c: char, k: Class) -> bool {
    match k {
        Class::Letter => alphabetic(c),
        Class::Number => numeric(c),
        Class::Symbol => !alphabetic(c) && !numeric(c) && !whitespace(c),
        Class::Space => whitespace(c),
        Class::Newline => is_newline(c),
    }
}

fn of_class(c: char, k: Class) -> (r: bool)
    ensures
        r == in_class(c, k),
{
    match k {
        Class::Letter => c.is_alphabetic(),
        Class::Number => c.is_numeric(),
        Class::Symbol => !c.is_alphabetic() && !c.is_numeric() && !c.is_whitespace(),
        Class::Space => c.is_whitespace(),
        Class::Newline => c == '\r' || c == '\n',
    }
}

/// The end of the run of one class that starts at `j`, of at most `max`
/// characters.
pub open spec fn run_end(c: Seq<char>, j: int, k: Class, max: nat) -> int
    decreases max,
{
    if max > 0 && 0 <= j < c.len() && in_class(c[j], k) {
        run_end(c, j + 1, k, (max - 1) as nat)
    } else {
        j
    }
}

fn end_of_run(c: &[char], j: usize, k: Class, max: usize) -> (r: usize)
    requires
        j <= c@.len(),
    ensures
        r == run_end(c@, j as int, k, max as nat),
        j <= r <= c@.len(),
        r - j <= max,
        r > j <==> (max > 0 && j < c@.len() && in_class(c@[j as int], k)),
        forall|i: int| j <= i < r ==> in_class(#[trigger] c@[i], k),
{
    let mut i: usize = j;
    let mut left: usize = max;
    while left > 0 && i < c.len() && of_class(c[i], k)
        invariant
            j <= i <= c@.len(),
            left <= max,
            i - j == max - left,
            run_end(c@, j as int, k, max as nat) == run_end(c@, i as int, k, left as nat),
            forall|q: int| j <= q < i ==> in_class(#[trigger] c@[q], k),
        decreases left,
    {
        i += 1;
        left -= 1;
    }
    i
}

/// The length of the contraction that a text starts with, or 0.
pub open spec fn contraction(t: Seq<char>) -> int {
    if is_at(t, 0, "'re"@) || is_at(t, 0, "'ve"@) || is_at(t, 0, "'ll"@) {
        3
    } else if is_at(t, 0, "'s"@) || is_at(t, 0, "'t"@) || is_at(t, 0, "'m"@) || is_at(t, 0, "'d"@) {
        2
    } else {
        0
    }
}

/// The text in which a contraction is looked for: the apostrophe and up to two
/// characters after it.
pub open spec fn contraction_tail(c: Seq<char>, i: int, split: Split) -> Seq<char> {
    let tail = c.subrange(i, if i + 3 < c.len() { i + 3 } else { c.len() as int });
    if split.ci_contractions {
        lowercase(tail)
    } else {
        tail
    }
}

/// Where the letters of a word that starts at `i` begin: after one leading
/// character where the rule lets a word absorb it.
pub open spec fn word_start(c: Seq<char>, i: int, split: Split) -> int {
    let lead = if split.word_any_prefix {
        !alphabetic(c[i]) && !numeric(c[i]) && !is_newline(c[i])
    } else {
        c[i] == ' '
    };
    if lead && i + 1 < c.len() && alphabetic(c[i + 1]) {
        i + 1
    } else {
        i
    }
}

/// How many digits go into one piece.
pub open spec fn digit_limit(d: Digits, n: nat) -> nat {
    match d {
        Digits::Single => 1,
        Digits::Upto3 => 3,
        Digits::Run => n,
    }
}

/// One past the last newline in `c[i..end]`, or `i`.
pub open spec fn after_newline(c: Seq<char>, i: int, end: int) -> int
    decreases end - i,
{
    if end <= i {
        i
    } else if is_newline(c[end - 1]) {
        end
    } else {
        after_newline(c, i, end - 1)
    }
}

/// The length of the piece that starts at `i`, following the declared
/// alternation in order: contractions, words, digits, symbols, whitespace.
pub open spec fn piece_len(c: Seq<char>, i: int, split: Split) -> int {
    let n = c.len();
    let short = if c[i] == '\'' && i + 1 < n {
        contraction(contraction_tail(c, i, split))
    } else {
        0
    };
    let word = word_start(c, i, split);
    let number = if split.digit_space && c[i] == ' ' && i + 1 < n && numeric(c[i + 1]) {
        i + 1
    } else {
        i
    };
    let symbol = if c[i] == ' ' && i + 1 < n && in_class(c[i + 1], Class::Symbol) {
        i + 1
    } else {
        i
    };
    if short > 0 {
        short
    } else if alphabetic(c[word]) {
        run_end(c, word, Class::Letter, n) - i
    } else if numeric(c[number]) {
        run_end(c, number, Class::Number, digit_limit(split.digits, n)) - i
    } else if in_class(c[symbol], Class::Symbol) {
        let end = run_end(c, symbol, Class::Symbol, n);
        if split.symbol_newline {
            run_end(c, end, Class::Newline, n) - i
        } else {
            end - i
        }
    } else if whitespace(c[i]) {
        let end = run_end(c, i, Class::Space, n);
        let cut = after_newline(c, i, end);
        if split.newline_rule && cut > i {
            cut - i
        } else if end == n || end - 1 == i {
            end - i
        } else {
            end - 1 - i
        }
    } else {
        1
    }
}

/// A piece has at least one character and none beyond the text.
pub open spec fn piece_end(c: Seq<char>, i: int, split: Split) -> int {
    let len = piece_len(c, i, split);
    if len < 1 {
        i + 1
    } else if i + len > c.len() {
        c.len() as int
    } else {
        i + len
    }
}

/// The pieces of a text from `i` on.
pub open spec fn pieces(c: Seq<char>, i: int, split: Split) -> Seq<Seq<char>>
    decreases c.len() - i,
{
    if 0 <= i < c.len() {
        seq![c.subrange(i, piece_end(c, i, split))] + pieces(c, piece_end(c, i, split), split)
    } else {
        Seq::empty()
    }
}

/// Strings one after the other.
pub open spec fn concat(v: Seq<Seq<char>>) -> Seq<char>
    decreases v.len(),
{
    if v.len() == 0 {
        Seq::empty()
    } else {
        v[0] + concat(v.drop_first())
    }
}

/// Splitting loses nothing: the pieces, one after the other, are the text.
pub proof fn law_pieces_cover(c: Seq<char>, i: int, split: Split)
    requires
        0 <= i <= c.len(),
    ensures
        concat(pieces(c, i, split)) == c.subrange(i, c.len() as int),
    decreases c.len() - i,
{
    if i < c.len() {
        let e = piece_end(c, i, split);
        law_pieces_cover(c, e, split);
        let p = pieces(c, i, split);
        assert(p.drop_first() =~= pieces(c, e, split));
        assert(c.subrange(i, e) + c.subrange(e, c.len() as int) =~= c.subrange(i, c.len() as int));
    } else {
        assert(c.subrange(i, c.len() as int) =~= Seq::<char>::empty());
    }
}

impl Split {
    /// Length in chars of the piece starting at `i`, following the declared
    /// alternation in order.
    fn piece(&self, c: &[char], i: usize) -> (r: usize)
        requires
            i < c@.len(),
        ensures
            r == piece_len(c@, i as int, *self),
    {
        let n: usize = c.len();
        if c[i] == '\'' && i + 1 < n {
            let end: usize = if n - i > 3 { i + 3 } else { n };
            let mut tail = substring(c, i, end);
            if self.ci_contractions {
                tail = tail.as_str().to_lowercase();
            }
            let short: usize = contraction_len(tail.as_str());
            if short > 0 {
                return short;
            }
        }
        // word: an optional leading character, then letters
        let mut j: usize = i;
        let lead = if self.word_any_prefix {
            !c[j].is_alphabetic() && !c[j].is_numeric() && c[j] != '\r' && c[j] != '\n'
        } else {
            c[j] == ' '
        };
        if lead && j + 1 < n && c[j + 1].is_alphabetic() {
            j += 1;
        }
        if c[j].is_alphabetic() {
            return end_of_run(c, j, Class::Letter, n) - i;
        }
        // digits
        let mut j: usize = i;
        if self.digit_space && c[j] == ' ' && j + 1 < n && c[j + 1].is_numeric() {
            j += 1;
        }
        if c[j].is_numeric() {
            let max: usize = match self.digits {
                Digits::Single => 1,
                Digits::Upto3 => 3,
                Digits::Run => n,
            };
            return end_of_run(c, j, Class::Number, max) - i;
        }
        // symbols, optionally trailing newlines
        let mut j: usize = i;
        if c[j] == ' ' && j + 1 < n && of_class(c[j + 1], Class::Symbol) {
            j += 1;
        }
        if of_class(c[j], Class::Symbol) {
            let end: usize = end_of_run(c, j, Class::Symbol, n);
            if self.symbol_newline {
                return end_of_run(c, end, Class::Newline, n) - i;
            }
            return end - i;
        }
        // whitespace: a run ending at a newline, a run that reaches the end of
        // the text, or a run minus the space that belongs to the next piece
        if c[i].is_whitespace() {
            let end: usize = end_of_run(c, i, Class::Space, n);
            if self.newline_rule {
                let mut k: usize = end;
                while k > i && c[k - 1] != '\r' && c[k - 1] != '\n'
                    invariant
                        i <= k <= end <= c@.len(),
                        after_newline(c@, i as int, k as int) == after_newline(c@, i as int, end as int),
                    decreases k,
                {
                    k -= 1;
                }
                if k > i {
                    return k - i;
                }
            }
            if end == n || end - 1 == i {
                return end - i;
            }
            return end - 1 - i;
        }
        1
    }

    /// The text cut up before BPE.
    pub fn pretokenize(&self, text: &str) -> (out: Vec<String>)
        ensures
            texts(out@) == pieces(text@, 0, *self),
    {
        let c = chars_of(text);
        let mut out: Vec<String> = Vec::new();
        let mut i: usize = 0;
        assert(texts(out@) + pieces(text@, 0, *self) =~= pieces(text@, 0, *self));
        while i < c.len()
            invariant
                i <= c@.len(),
                c@ == text@,
                texts(out@) + pieces(text@, i as int, *self) == pieces(text@, 0, *self),
            decreases c.len() - i,
        {
            let len: usize = self.piece(c.as_slice(), i);
            let end: usize = if len < 1 {
                i + 1
            } else if len > c.len() - i {
                c.len()
            } else {
                i + len
            };
            let piece = substring(c.as_slice(), i, end);
            let ghost before = texts(out@);
            out.push(piece);
            assert(texts(out@) =~= before.push(piece@));
            assert(texts(out@) + pieces(text@, end as int, *self) =~= before + pieces(text@, i as int, *self));
            i = end;
        }
        assert(texts(out@) + pieces(text@, i as int, *self) =~= texts(out@));
        out
    }
}

fn contraction_len(t: &str) -> (r: usize)
    ensures
        r == contraction(t@),
{
    let c = chars_of(t);
    let s = c.as_slice();
    if at(s, 0, "'re") || at(s, 0, "'ve") || at(s, 0, "'ll") {
        3
    } else if at(s, 0, "'s") || at(s, 0, "'t") || at(s, 0, "'m") || at(s, 0, "'d") {
        2
    } else {
        0
    }
}

// ------------------------------------------------------------------- merging

/// Every character of a word on its own.
pub open spec fn singles(word: Seq<char>) -> Seq<Seq<char>> {
    Seq::new(word.len(), |i: int| seq![word[i]])
}

/// The rank of the pair at `i`, if it may merge.
pub open spec fn rank_at(ranks: Map<(Seq<char>, Seq<char>), u32>, parts: Seq<Seq<char>>, i: int) -> Option<u32> {
    if 0 <= i && i + 1 < parts.len() && ranks.dom().contains((parts[i], parts[i + 1])) {
        Some(ranks[(parts[i], parts[i + 1])])
    } else {
        None
    }
}

/// The ranks of all pairs. The last part has no right neighbour, so no rank.
pub open spec fn ranks_along(ranks: Map<(Seq<char>, Seq<char>), u32>, parts: Seq<Seq<char>>) -> Seq<Option<u32>> {
    Seq::new(parts.len(), |i: int| rank_at(ranks, parts, i))
}

/// Among the first `n`, the leftmost of the lowest rank.
pub open spec fn best_pair(row: Seq<Option<u32>>, n: nat) -> Option<int>
    decreases n,
{
    if n == 0 {
        None
    } else {
        let before = best_pair(row, (n - 1) as nat);
        match row[n - 1] {
            None => before,
            Some(r) => match before {
                Some(j) if row[j]->0 <= r => before,
                _ => Some(n - 1),
            },
        }
    }
}

/// The parts with those at `i` and `i + 1` made one.
pub open spec fn merge_at(parts: Seq<Seq<char>>, i: int) -> Seq<Seq<char>> {
    parts.update(i, parts[i] + parts[i + 1]).remove(i + 1)
}

/// The parts after all merging: by ascending rank, leftmost first.
pub open spec fn merged(ranks: Map<(Seq<char>, Seq<char>), u32>, parts: Seq<Seq<char>>) -> Seq<Seq<char>>
    decreases parts.len(),
{
    match best_pair(ranks_along(ranks, parts), parts.len()) {
        Some(i) if 0 <= i && i + 1 < parts.len() => merged(ranks, merge_at(parts, i)),
        _ => parts,
    }
}

/// A hexadecimal digit, in upper case.
pub open spec fn hex_upper(d: int) -> char {
    if d < 10 {
        (48 + d) as char
    } else {
        (55 + d) as char
    }
}

/// The name under which a sentencepiece-style vocabulary keeps a byte.
pub open spec fn byte_name(b: u8) -> Seq<char> {
    "<0x"@ + seq![hex_upper(b as int / 16), hex_upper(b as int % 16)] + ">"@
}

/// The ids of the first `n` bytes, as far as the vocabulary has them.
pub open spec fn fallback_ids(vocab: Map<Seq<char>, u32>, bytes: Seq<u8>, n: nat) -> Seq<u32>
    decreases n,
{
    if n == 0 || n > bytes.len() {
        Seq::empty()
    } else {
        let before = fallback_ids(vocab, bytes, (n - 1) as nat);
        if vocab.dom().contains(byte_name(bytes[n - 1])) {
            before.push(vocab[byte_name(bytes[n - 1])])
        } else {
            before
        }
    }
}

/// The ids of one merged part: its own, or else those of its bytes.
pub open spec fn part_ids(vocab: Map<Seq<char>, u32>, p: Seq<char>) -> Seq<u32> {
    if vocab.dom().contains(p) {
        seq![vocab[p]]
    } else {
        fallback_ids(vocab, encode_utf8(p), encode_utf8(p).len())
    }
}

/// The ids of the first `n` parts.
pub open spec fn parts_ids(vocab: Map<Seq<char>, u32>, parts: Seq<Seq<char>>, n: nat) -> Seq<u32>
    decreases n,
{
    if n == 0 || n > parts.len() {
        Seq::empty()
    } else {
        parts_ids(vocab, parts, (n - 1) as nat) + part_ids(vocab, parts[n - 1])
    }
}

/// A text with every `from` replaced by `to`.
pub open spec fn replaced(s: Seq<char>, from: char, to: char) -> Seq<char> {
    Seq::new(s.len(), |i: int| if s[i] == from { to } else { s[i] })
}

/// The characters that stand for the bytes of a text.
pub open spec fn byte_level(s: Seq<char>) -> Seq<char> {
    let b = encode_utf8(s);
    Seq::new(b.len(), |i: int| byte_char(b[i]))
}

impl TokenizerV {
    /// The ids of one word.
    pub open spec fn word_ids(self, word: Seq<char>) -> Seq<u32> {
        let parts = merged(self.ranks, singles(word));
        parts_ids(self.vocab, parts, parts.len())
    }

    /// The ids of the first `n` words, in byte-level text.
    pub open spec fn words_ids(self, words: Seq<Seq<char>>, n: nat) -> Seq<u32>
        decreases n,
    {
        if n == 0 || n > words.len() {
            Seq::empty()
        } else {
            self.words_ids(words, (n - 1) as nat) + self.word_ids(byte_level(words[n - 1]))
        }
    }

    /// The ids of a text that holds no added token.
    pub open spec fn plain_ids(self, text: Seq<char>) -> Seq<u32> {
        if self.metaspace {
            let s = replaced(text, ' ', SEPARATOR);
            self.word_ids(
                if self.prefix_space {
                    seq![SEPARATOR] + s
                } else {
                    s
                },
            )
        } else {
            let w = pieces(text, 0, self.split);
            self.words_ids(w, w.len())
        }
    }

    /// The first added token, from number `k` on, that stands at `i`.
    pub open spec fn added_at(self, text: Seq<char>, i: int, k: int) -> Option<int>
        decreases self.added.len() - k,
    {
        if k < 0 || k >= self.added.len() {
            None
        } else if is_at(text, i, self.added[k].0) {
            Some(k)
        } else {
            self.added_at(text, i, k + 1)
        }
    }

    /// The ids of a text from `start` on, where no added token begins before `i`.
    pub open spec fn scan(self, text: Seq<char>, start: int, i: int) -> Seq<u32>
        decreases text.len() - i,
    {
        if i >= text.len() {
            if start < text.len() {
                self.plain_ids(text.subrange(start, text.len() as int))
            } else {
                Seq::empty()
            }
        } else {
            match self.added_at(text, i, 0) {
                Some(k) if self.added[k].0.len() > 0 && i + self.added[k].0.len() <= text.len() => {
                    let end = i + self.added[k].0.len();
                    (if start < i {
                        self.plain_ids(text.subrange(start, i))
                    } else {
                        Seq::empty()
                    }) + seq![self.added[k].1] + self.scan(text, end, end)
                },
                _ => self.scan(text, start, i + 1),
            }
        }
    }

    /// The ids of a text, after the token that begins a sequence, if there is one.
    pub open spec fn encode(self, text: Seq<char>, bos: Option<u32>) -> Seq<u32> {
        (match bos {
            Some(b) => seq![b],
            None => Seq::empty(),
        }) + self.scan(text, 0, 0)
    }
}

impl Tokenizer {
    /// The tokenizer's invariant: its texts are found by id, and no added token is empty.
    pub closed spec fn valid(self) -> bool {
        &&& self.listing.valid()
        &&& forall|k: int| 0 <= k < self.added@.len() ==> (#[trigger] self.added@[k]).0@.len() > 0
    }

    /// The texts by id.
    pub(crate) fn listing(&self) -> (r: &Listing)
        requires
            self.valid(),
        ensures
            r.valid(),
            self@.tokens == r.texts(),
            self@.special == r.specials(),
            self@.literal == r.literals(),
    {
        &self.listing
    }

    fn pair(&self, parts: &Vec<String>, i: usize) -> (r: Option<u32>)
        requires
            i + 1 < parts.len(),
        ensures
            r == rank_at(self@.ranks, texts(parts@), i as int),
    {
        let key = key_of(parts[i].as_str(), parts[i + 1].as_str());
        match self.ranks.get(key.as_str()) {
            Some(r) => Some(*r),
            None => None,
        }
    }

    /// The ranks of all neighbouring pairs.
    fn neighbour_ranks(&self, parts: &Vec<String>) -> (row: Vec<Option<u32>>)
        ensures
            row@ == ranks_along(self@.ranks, texts(parts@)),
    {
        let mut row: Vec<Option<u32>> = Vec::new();
        let mut i: usize = 0;
        while i < parts.len()
            invariant
                i <= parts@.len(),
                row@ == ranks_along(self@.ranks, texts(parts@)).subrange(0, i as int),
            decreases parts.len() - i,
        {
            if i + 1 < parts.len() {
                row.push(self.pair(parts, i));
            } else {
                row.push(None);
            }
            i += 1;
            assert(row@ =~= ranks_along(self@.ranks, texts(parts@)).subrange(0, i as int));
        }
        assert(row@ =~= ranks_along(self@.ranks, texts(parts@)));
        row
    }

    /// Make one part of those at `b` and `b + 1`, and look up the ranks of the
    /// two pairs that this changes.
    fn merge_pair(&self, parts: &mut Vec<String>, row: &mut Vec<Option<u32>>, b: usize)
        requires
            b + 1 < old(parts)@.len(),
            old(row)@ == ranks_along(self@.ranks, texts(old(parts)@)),
        ensures
            texts(final(parts)@) == merge_at(texts(old(parts)@), b as int),
            final(row)@ == ranks_along(self@.ranks, texts(final(parts)@)),
            final(parts)@.len() == old(parts)@.len() - 1,
    {
        let ghost tv = texts(parts@);
        let ghost ranks = self@.ranks;
        assert(b + 1 < parts.len());
        let whole = join(parts[b].as_str(), parts[b + 1].as_str());
        parts.set(b, whole);
        let _ = parts.remove(b + 1);
        let ghost now = texts(parts@);
        assert(now =~= merge_at(tv, b as int));
        let ghost old_row = row@;
        assert(row.len() == row@.len());
        let _ = row.remove(b);
        if b + 1 < parts.len() {
            let r = self.pair(parts, b);
            row.set(b, r);
        }
        if b > 0 {
            let r = self.pair(parts, b - 1);
            row.set(b - 1, r);
        }
        assert forall|q: int| 0 <= q < now.len() implies #[trigger] row@[q] == rank_at(ranks, now, q) by {
            if q < b - 1 {
                assert(old_row[q] == rank_at(ranks, tv, q));
                assert(now[q] == tv[q] && now[q + 1] == tv[q + 1]);
            } else if q > b {
                assert(old_row[q + 1] == rank_at(ranks, tv, q + 1));
                assert(now[q] == tv[q + 1]);
                if q + 1 < now.len() {
                    assert(now[q + 1] == tv[q + 2]);
                }
            }
        }
        assert(row@ =~= ranks_along(ranks, now));
    }

    /// Merge by ascending rank, leftmost first. The ranks of the neighbouring
    /// pairs are kept beside the parts, so that a merge looks up two of them.
    fn merge(&self, word: &str) -> (parts: Vec<String>)
        ensures
            texts(parts@) == merged(self@.ranks, singles(word@)),
    {
        let mut parts = split_chars(word);
        let mut row = self.neighbour_ranks(&parts);
        loop
            invariant
                row@ == ranks_along(self@.ranks, texts(parts@)),
                merged(self@.ranks, texts(parts@)) == merged(self@.ranks, singles(word@)),
            decreases parts@.len(),
        {
            let n: usize = parts.len();
            match best_rank(&row) {
                Some(b) if b + 1 < n => {
                    self.merge_pair(&mut parts, &mut row, b);
                },
                _ => {
                    return parts;
                },
            }
        }
    }

    /// The ids of one word, appended to `out`.
    #[verifier::loop_isolation(false)]
    pub fn bpe(&self, word: &str, out: &mut Vec<u32>)
        ensures
            final(out)@ == old(out)@ + self@.word_ids(word@),
    {
        let parts = self.merge(word);
        let ghost tv = texts(parts@);
        let ghost start = out@;
        let mut i: usize = 0;
        assert(out@ =~= start + parts_ids(self@.vocab, tv, 0));
        while i < parts.len()
            invariant
                i <= parts@.len(),
                out@ == start + parts_ids(self@.vocab, tv, i as nat),
            decreases parts.len() - i,
        {
            let p = parts[i].as_str();
            assert(tv[i as int] == p@);
            let ghost base = out@;
            match self.vocab.get(p) {
                Some(id) => {
                    out.push(*id);
                    assert(out@ =~= base + part_ids(self@.vocab, p@));
                },
                None => {
                    // Byte fallback for sentencepiece-style vocabularies.
                    let bytes = bytes_of(p);
                    let mut k: usize = 0;
                    assert(out@ =~= base + fallback_ids(self@.vocab, bytes@, 0));
                    while k < bytes.len()
                        invariant
                            k <= bytes@.len(),
                            out@ == base + fallback_ids(self@.vocab, bytes@, k as nat),
                        decreases bytes.len() - k,
                    {
                        let name = byte_token(bytes[k]);
                        if let Some(id) = self.vocab.get(name.as_str()) {
                            out.push(*id);
                        }
                        k += 1;
                        assert(out@ =~= base + fallback_ids(self@.vocab, bytes@, k as nat));
                    }
                },
            }
            i += 1;
            assert(out@ =~= start + parts_ids(self@.vocab, tv, i as nat));
        }
    }

    /// The ids of a text that holds no added token, appended to `ids`.
    #[verifier::loop_isolation(false)]
    fn encode_plain(&self, text: &str, ids: &mut Vec<u32>)
        ensures
            final(ids)@ == old(ids)@ + self@.plain_ids(text@),
    {
        if self.metaspace {
            let c = chars_of(text);
            let mut s = String::new();
            if self.prefix_space {
                // The separator is added even when the text already begins
                // with one.
                s.push(SEPARATOR);
            }
            let ghost head = s@;
            let mut i: usize = 0;
            assert(s@ =~= head + replaced(text@, ' ', SEPARATOR).subrange(0, 0));
            while i < c.len()
                invariant
                    i <= c@.len(),
                    s@ == head + replaced(text@, ' ', SEPARATOR).subrange(0, i as int),
                decreases c.len() - i,
            {
                let ch = if c[i] == ' ' {
                    SEPARATOR
                } else {
                    c[i]
                };
                s.push(ch);
                i += 1;
                assert(s@ =~= head + replaced(text@, ' ', SEPARATOR).subrange(0, i as int));
            }
            assert(s@ =~= head + replaced(text@, ' ', SEPARATOR));
            assert(self@.prefix_space ==> s@ =~= seq![SEPARATOR] + replaced(text@, ' ', SEPARATOR));
            assert(!self@.prefix_space ==> s@ =~= replaced(text@, ' ', SEPARATOR));
            self.bpe(s.as_str(), ids);
        } else {
            let words = self.split.pretokenize(text);
            let ghost wv = pieces(text@, 0, self.split);
            let ghost start = ids@;
            let mut i: usize = 0;
            assert(ids@ =~= start + self@.words_ids(wv, 0));
            while i < words.len()
                invariant
                    i <= words@.len(),
                    ids@ == start + self@.words_ids(wv, i as nat),
                decreases words.len() - i,
            {
                let word = as_byte_level(words[i].as_str());
                assert(wv[i as int] == words@[i as int]@);
                self.bpe(word.as_str(), ids);
                i += 1;
                assert(ids@ =~= start + self@.words_ids(wv, i as nat));
            }
            assert(words@.len() == wv.len());
        }
    }

    /// Scan left to right, taking the longest added token that matches at each
    /// position. Order matters: an earlier short match beats a later long one.
    #[verifier::loop_isolation(false)]
    pub fn encode(&self, text: &str, bos: Option<u32>) -> (ids: Vec<u32>)
        requires
            self.valid(),
        ensures
            ids@ == self@.encode(text@, bos),
    {
        let c = chars_of(text);
        let mut ids: Vec<u32> = Vec::new();
        if let Some(b) = bos {
            ids.push(b);
        }
        let ghost want = self@.encode(text@, bos);
        let mut start: usize = 0;
        let mut i: usize = 0;
        assert(ids@ + self@.scan(text@, 0, 0) =~= want);
        while i < c.len()
            invariant
                start <= i <= c@.len(),
                ids@ + self@.scan(text@, start as int, i as int) == want,
            decreases c.len() - i,
        {
            // Longest first, so the first hit is the longest.
            let mut k: usize = 0;
            while k < self.added.len() && !at(c.as_slice(), i, self.added[k].0.as_str())
                invariant
                    k <= self.added@.len(),
                    self@.added_at(text@, i as int, 0) == self@.added_at(text@, i as int, k as int),
                decreases self.added.len() - k,
            {
                assert(self@.added[k as int].0 == self.added@[k as int].0@);
                k += 1;
            }
            if k < self.added.len() {
                assert(self@.added[k as int] == (self.added@[k as int].0@, self.added@[k as int].1));
                let ghost base = ids@;
                let ghost plain = if start < i {
                    self@.plain_ids(text@.subrange(start as int, i as int))
                } else {
                    Seq::empty()
                };
                let ghost content = self.added@[k as int].0@;
                if start < i {
                    let part = substring(c.as_slice(), start, i);
                    self.encode_plain(part.as_str(), &mut ids);
                }
                assert(ids@ =~= base + plain);
                ids.push(self.added[k].1);
                let n: usize = chars_of(self.added[k].0.as_str()).len();
                assert(base + (plain + seq![self.added@[k as int].1] + self@.scan(text@, i + n, i + n)) =~= ids@
                    + self@.scan(text@, i + n, i + n));
                i += n;
                start = i;
            } else {
                i += 1;
            }
        }
        if start < c.len() {
            let part = substring(c.as_slice(), start, c.len());
            self.encode_plain(part.as_str(), &mut ids);
        } else {
            assert(ids@ + Seq::<u32>::empty() =~= ids@);
        }
        ids
    }
}

/// Every character of a word on its own.
fn split_chars(word: &str) -> (parts: Vec<String>)
    ensures
        texts(parts@) == singles(word@),
{
    let chars = chars_of(word);
    let mut parts: Vec<String> = Vec::new();
    let mut i: usize = 0;
    while i < chars.len()
        invariant
            i <= chars@.len(),
            parts@.len() == i,
            forall|k: int| 0 <= k < i ==> (#[trigger] parts@[k])@ == seq![chars@[k]],
        decreases chars.len() - i,
    {
        let one = substring(chars.as_slice(), i, i + 1);
        assert(one@ =~= seq![chars@[i as int]]);
        parts.push(one);
        i += 1;
    }
    assert(texts(parts@) =~= singles(word@));
    parts
}

/// The leftmost pair of the lowest rank.
fn best_rank(row: &Vec<Option<u32>>) -> (best: Option<usize>)
    ensures
        match best {
            Some(b) => b < row@.len() && best_pair(row@, row@.len()) == Some(b as int),
            None => best_pair(row@, row@.len()) is None,
        },
{
    let mut best: Option<usize> = None;
    let mut k: usize = 0;
    while k < row.len()
        invariant
            k <= row@.len(),
            match best {
                Some(b) => b < k && best_pair(row@, k as nat) == Some(b as int) && row@[b as int] is Some,
                None => best_pair(row@, k as nat) is None,
            },
        decreases row.len() - k,
    {
        if let Some(r) = row[k] {
            best = match best {
                Some(b) => match row[b] {
                    Some(q) => if q <= r {
                        Some(b)
                    } else {
                        Some(k)
                    },
                    None => Some(k),
                },
                None => Some(k),
            };
        }
        k += 1;
    }
    best
}

fn byte_token(b: u8) -> (r: String)
    ensures
        r@ == byte_name(b),
{
    let mut out = "<0x".to_owned();
    let hi: u8 = b / 16;
    let lo: u8 = b % 16;
    out.push((if hi < 10 { 48 + hi } else { 55 + hi }) as char);
    out.push((if lo < 10 { 48 + lo } else { 55 + lo }) as char);
    out.append(">");
    assert(out@ =~= byte_name(b));
    out
}

fn as_byte_level(s: &str) -> (r: String)
    ensures
        r@ == byte_level(s@),
{
    let bytes = bytes_of(s);
    let mut out = String::new();
    let mut i: usize = 0;
    while i < bytes.len()
        invariant
            i <= bytes@.len(),
            bytes@ == encode_utf8(s@),
            out@ == byte_level(s@).subrange(0, i as int),
        decreases bytes.len() - i,
    {
        out.push(char_for(bytes[i]));
        i += 1;
        assert(out@ =~= byte_level(s@).subrange(0, i as int));
    }
    assert(out@ =~= byte_level(s@));
    out
}

// ------------------------------------------------------------------ decoding

/// The value of a hexadecimal digit.
pub open spec fn hex_value(c: char) -> Option<int> {
    let v = c as int;
    if 48 <= v <= 57 {
        Some(v - 48)
    } else if 65 <= v <= 70 {
        Some(v - 55)
    } else if 97 <= v <= 102 {
        Some(v - 87)
    } else {
        None
    }
}

/// The number that hexadecimal digits write.
pub open spec fn hex_number(s: Seq<char>) -> Option<int>
    decreases s.len(),
{
    if s.len() == 0 {
        Some(0)
    } else {
        match (hex_number(s.drop_last()), hex_value(s.last())) {
            (Some(n), Some(d)) => Some(16 * n + d),
            _ => None,
        }
    }
}

/// The byte that hexadecimal digits write, perhaps after a plus sign.
pub open spec fn hex_byte(s: Seq<char>) -> Option<u8> {
    let digits = if s.len() > 0 && s[0] == '+' {
        s.drop_first()
    } else {
        s
    };
    match hex_number(digits) {
        Some(n) if digits.len() > 0 && n <= 255 => Some(n as u8),
        _ => None,
    }
}

/// The byte that a sentencepiece-style token names, if it names one.
pub open spec fn named_byte(tok: Seq<char>) -> Option<u8> {
    if tok.len() >= 4 && is_at(tok, 0, "<0x"@) && tok.last() == '>' {
        hex_byte(tok.subrange(3, tok.len() - 1))
    } else {
        None
    }
}

/// The bytes that byte-level text stands for; a character that stands for none
/// gives a question mark.
pub open spec fn unmapped(tok: Seq<char>) -> Seq<u8> {
    Seq::new(
        tok.len(),
        |i: int|
            match char_byte(tok[i]) {
                Some(b) => b,
                None => 63u8,
            },
    )
}

impl TokenizerV {
    /// The raw bytes that one token stands for.
    pub open spec fn token_bytes(self, id: u32) -> Seq<u8> {
        if id >= self.tokens.len() {
            Seq::empty()
        } else {
            let tok = self.tokens[id as int];
            if self.literal[id as int] {
                encode_utf8(tok)
            } else if self.metaspace {
                match named_byte(tok) {
                    Some(b) => seq![b],
                    None => encode_utf8(replaced(tok, SEPARATOR, ' ')),
                }
            } else {
                unmapped(tok)
            }
        }
    }

    /// The raw bytes that some tokens stand for, one after the other.
    pub open spec fn bytes_of(self, ids: Seq<u32>) -> Seq<u8>
        decreases ids.len(),
    {
        if ids.len() == 0 {
            Seq::empty()
        } else {
            self.bytes_of(ids.drop_last()) + self.token_bytes(ids.last())
        }
    }

    /// The text of some tokens whose bytes are valid UTF-8.
    pub open spec fn decode_valid(self, ids: Seq<u32>) -> Seq<char> {
        let text = decode_utf8(self.bytes_of(ids));
        if self.strip_space && text.len() > 0 && text[0] == ' ' {
            text.drop_first()
        } else {
            text
        }
    }

    /// The text of some tokens.
    pub open spec fn decode(self, ids: Seq<u32>) -> Seq<char> {
        let text = lossy(self.bytes_of(ids));
        if self.strip_space && text.len() > 0 && text[0] == ' ' {
            text.drop_first()
        } else {
            text
        }
    }
}

/// What `String::from_utf8_lossy` makes of some bytes.
pub uninterp spec fn lossy(bytes: Seq<u8>) -> Seq<char>;

/// `String::from_utf8_lossy`: the text of the bytes, which is their decoding
/// where they are valid UTF-8. Where they are not, each invalid sequence is
/// replaced; what comes out then has a name and nothing more is said of it.
#[verifier::external_body]
pub(crate) fn text_lossy(bytes: &[u8]) -> (r: String)
    ensures
        r@ == lossy(bytes@),
        valid_utf8(bytes@) ==> r@ == decode_utf8(bytes@),
{
    String::from_utf8_lossy(bytes).into_owned()
}

fn hex_digit_value(c: char) -> (r: Option<u32>)
    ensures
        match r {
            Some(d) => hex_value(c) == Some(d as int) && d < 16,
            None => hex_value(c) is None,
        },
{
    let v: u32 = c as u32;
    if 48 <= v && v <= 57 {
        Some(v - 48)
    } else if 65 <= v && v <= 70 {
        Some(v - 55)
    } else if 97 <= v && v <= 102 {
        Some(v - 87)
    } else {
        None
    }
}

/// A number that is too large stays too large with more digits.
proof fn lemma_hex_grows(s: Seq<char>, i: int)
    requires
        0 <= i <= s.len(),
        hex_number(s.subrange(0, i)) is None || hex_number(s.subrange(0, i))->0 > 255,
    ensures
        hex_number(s) is None || hex_number(s)->0 > 255,
    decreases s.len() - i,
{
    if i < s.len() {
        assert(s.subrange(0, i + 1).drop_last() =~= s.subrange(0, i));
        lemma_hex_grows(s, i + 1);
    } else {
        assert(s.subrange(0, i) =~= s);
    }
}

/// The byte that a token names, if it names one.
fn byte_named(tok: &Vec<char>) -> (r: Option<u8>)
    ensures
        r == named_byte(tok@),
{
    let n: usize = tok.len();
    if n < 4 || !at(tok.as_slice(), 0, "<0x") || tok[n - 1] != '>' {
        return None;
    }
    let ghost inner = tok@.subrange(3, n - 1);
    let from: usize = if n > 4 && tok[3] == '+' {
        4
    } else {
        3
    };
    let ghost digits = if inner.len() > 0 && inner[0] == '+' {
        inner.drop_first()
    } else {
        inner
    };
    assert(digits =~= tok@.subrange(from as int, n - 1));
    if from == n - 1 {
        return None;
    }
    let mut value: u32 = 0;
    let mut i: usize = from;
    assert(digits.subrange(0, 0) =~= Seq::<char>::empty());
    while i < n - 1
        invariant
            3 <= from <= i <= n - 1,
            n == tok@.len(),
            inner == tok@.subrange(3, n - 1),
            digits == tok@.subrange(from as int, n - 1),
            named_byte(tok@) == hex_byte(inner),
            digits == (if inner.len() > 0 && inner[0] == '+' {
                inner.drop_first()
            } else {
                inner
            }),
            value <= 255,
            hex_number(digits.subrange(0, i - from)) == Some(value as int),
        decreases n - i,
    {
        let ghost prefix = digits.subrange(0, i - from + 1);
        assert(prefix.drop_last() =~= digits.subrange(0, i - from));
        match hex_digit_value(tok[i]) {
            Some(d) => {
                value = value * 16 + d;
            },
            None => {
                proof {
                    lemma_hex_grows(digits, i - from + 1);
                }
                return None;
            },
        }
        if value > 255 {
            proof {
                lemma_hex_grows(digits, i - from + 1);
            }
            return None;
        }
        i += 1;
    }
    assert(digits.subrange(0, i - from) =~= digits);
    Some(value as u8)
}

/// A token that has no text, or that the vocabulary does not know, stands for no bytes.
pub(crate) proof fn lemma_no_text(t: TokenizerV, id: u32)
    requires
        id < t.tokens.len() ==> t.tokens[id as int].len() == 0,
    ensures
        t.token_bytes(id).len() == 0,
{
    if id < t.tokens.len() {
        let tok = t.tokens[id as int];
        assert(tok =~= Seq::<char>::empty());
        assert(replaced(tok, SEPARATOR, ' ') =~= Seq::<char>::empty());
        assert(encode_utf8(Seq::<char>::empty()) =~= Seq::<u8>::empty());
    }
}

impl Tokenizer {
    pub fn vocab_size(&self) -> (r: usize)
        ensures
            r == self@.tokens.len(),
    {
        self.listing.size()
    }

    /// Whether the vocabulary carries this exact token, which is how chat
    /// formats are recognised without interpreting a template.
    pub fn has_token(&self, text: &str) -> (r: bool)
        ensures
            r == self@.vocab.dom().contains(text@),
    {
        self.vocab.contains_key(text)
    }

    pub fn is_special(&self, id: u32) -> (r: bool)
        requires
            self.valid(),
        ensures
            r == (id < self@.special.len() && self@.special[id as int]),
    {
        proof {
            self.listing.lemma_entries();
        }
        match self.listing.get(id) {
            Some(e) => e.special,
            None => false,
        }
    }

    /// Whether the checkpoint's decoder drops one leading space.
    pub fn strips_leading_space(&self) -> (r: bool)
        ensures
            r == self@.strip_space,
    {
        self.strip_space
    }

    /// The text cut up before BPE, by the rule that the tokenizer declares.
    pub fn pretokenize(&self, text: &str) -> (out: Vec<String>)
        ensures
            texts(out@) == pieces(text@, 0, self@.split),
    {
        self.split.pretokenize(text)
    }

    /// Append the raw bytes of one token.
    fn push_bytes(&self, id: u32, out: &mut Vec<u8>)
        requires
            self.valid(),
        ensures
            final(out)@ == old(out)@ + self@.token_bytes(id),
    {
        let ghost start = out@;
        proof {
            self.listing.lemma_entries();
        }
        let e: &Entry = match self.listing.get(id) {
            Some(e) => e,
            None => {
                proof {
                    lemma_no_text(self@, id);
                }
                assert(out@ =~= start + Seq::<u8>::empty());
                return;
            },
        };
        assert(self@.tokens[id as int] == e.text@);
        assert(self@.literal[id as int] == e.literal);
        let tok = e.text.as_str();
        if e.literal {
            let mut b = bytes_of(tok);
            out.append(&mut b);
            return;
        }
        let c = chars_of(tok);
        if self.metaspace {
            match byte_named(&c) {
                Some(b) => {
                    out.push(b);
                    assert(out@ =~= start + seq![b]);
                },
                None => {
                    let mut spaced = String::new();
                    let mut i: usize = 0;
                    while i < c.len()
                        invariant
                            i <= c@.len(),
                            spaced@ == replaced(c@, SEPARATOR, ' ').subrange(0, i as int),
                        decreases c.len() - i,
                    {
                        spaced.push(
                            if c[i] == SEPARATOR {
                                ' '
                            } else {
                                c[i]
                            },
                        );
                        i += 1;
                        assert(spaced@ =~= replaced(c@, SEPARATOR, ' ').subrange(0, i as int));
                    }
                    assert(spaced@ =~= replaced(c@, SEPARATOR, ' '));
                    let mut b = bytes_of(spaced.as_str());
                    out.append(&mut b);
                },
            }
        } else {
            let mut i: usize = 0;
            assert(out@ =~= start + unmapped(c@).subrange(0, 0));
            while i < c.len()
                invariant
                    i <= c@.len(),
                    out@ == start + unmapped(c@).subrange(0, i as int),
                decreases c.len() - i,
            {
                let b: u8 = match byte_for(c[i]) {
                    Some(b) => b,
                    None => 63,
                };
                out.push(b);
                i += 1;
                assert(out@ =~= start + unmapped(c@).subrange(0, i as int));
            }
            assert(unmapped(c@).subrange(0, c@.len() as int) =~= unmapped(c@));
        }
    }

    /// Append the raw bytes some tokens stand for. Decoding works in bytes
    /// because a multi-byte character can be split across several tokens.
    pub fn decode_bytes(&self, ids: &[u32], out: &mut Vec<u8>)
        requires
            self.valid(),
        ensures
            final(out)@ == old(out)@ + self@.bytes_of(ids@),
    {
        let ghost start = out@;
        let mut i: usize = 0;
        assert(ids@.subrange(0, 0) =~= Seq::<u32>::empty());
        assert(out@ =~= start + self@.bytes_of(ids@.subrange(0, 0)));
        while i < ids.len()
            invariant
                i <= ids@.len(),
                self.valid(),
                out@ == start + self@.bytes_of(ids@.subrange(0, i as int)),
            decreases ids.len() - i,
        {
            let ghost prefix = ids@.subrange(0, i + 1);
            assert(prefix.drop_last() =~= ids@.subrange(0, i as int));
            self.push_bytes(ids[i], out);
            i += 1;
            assert(out@ =~= start + self@.bytes_of(ids@.subrange(0, i as int)));
        }
        assert(ids@.subrange(0, ids@.len() as int) =~= ids@);
    }

    /// The text of some tokens.
    pub fn decode(&self, ids: &[u32]) -> (r: String)
        requires
            self.valid(),
        ensures
            r@ == self@.decode(ids@),
            valid_utf8(self@.bytes_of(ids@)) ==> r@ == self@.decode_valid(ids@),
    {
        let mut b: Vec<u8> = Vec::new();
        self.decode_bytes(ids, &mut b);
        assert(b@ =~= self@.bytes_of(ids@));
        let text = text_lossy(b.as_slice());
        if self.strip_space {
            let c = chars_of(text.as_str());
            if c.len() > 0 && c[0] == ' ' {
                let rest = substring(c.as_slice(), 1, c.len());
                assert(rest@ =~= text@.drop_first());
                return rest;
            }
        }
        text
    }

    /// Text of a single token, on its own. Prefer [`Stream`] when printing
    /// tokens as they are produced.
    pub fn decode_one(&self, id: u32) -> (r: String)
        requires
            self.valid(),
        ensures
            r@ == self@.decode(seq![id]),
    {
        let one: Vec<u32> = vec![id];
        assert(one@ =~= seq![id]);
        self.decode(one.as_slice())
    }
}

// ------------------------------------------------------------------- loading

/// The id that a vocabulary entry gives, cut to 32 bits.
pub open spec fn id_of(v: JsonV) -> u32 {
    match v.as_u64() {
        Some(n) => n as u32,
        None => 0,
    }
}

/// The vocabulary in the first `n` entries.
pub open spec fn vocab_of(m: Seq<(Seq<char>, JsonV)>, n: nat) -> Map<Seq<char>, u32>
    decreases n,
{
    if n == 0 || n > m.len() {
        Map::empty()
    } else {
        vocab_of(m, (n - 1) as nat).insert(m[n - 1].0, id_of(m[n - 1].1))
    }
}

/// The largest id in the first `n` entries, or 0.
pub open spec fn max_id(m: Seq<(Seq<char>, JsonV)>, n: nat) -> u32
    decreases n,
{
    if n == 0 || n > m.len() {
        0
    } else {
        let before = max_id(m, (n - 1) as nat);
        let here = id_of(m[n - 1].1);
        if here > before {
            here
        } else {
            before
        }
    }
}

/// The table of texts by id, after the first `n` entries.
pub open spec fn tokens_of(m: Seq<(Seq<char>, JsonV)>, size: nat, n: nat) -> Seq<Seq<char>>
    decreases n,
{
    if n == 0 || n > m.len() {
        Seq::new(size, |i: int| Seq::empty())
    } else {
        tokens_of(m, size, (n - 1) as nat).update(id_of(m[n - 1].1) as int, m[n - 1].0)
    }
}

/// The two halves of a merge: written as one string with a space between them,
/// or as an array of two.
pub open spec fn merge_of(v: JsonV) -> Option<(Seq<char>, Seq<char>)> {
    match v {
        JsonV::Str(s) => match first_at(s, 0, seq![' ']) {
            Some(i) => Some((s.subrange(0, i), s.subrange(i + 1, s.len() as int))),
            None => None,
        },
        JsonV::Arr(a) => if a.len() == 2 {
            Some((string_or_empty(a[0]), string_or_empty(a[1])))
        } else {
            None
        },
        _ => None,
    }
}

pub open spec fn string_or_empty(v: JsonV) -> Seq<char> {
    match v.as_str() {
        Some(s) => s,
        None => Seq::empty(),
    }
}

/// The ranks that the first `n` merges give: a pair that occurs again keeps its
/// first rank.
pub open spec fn ranks_of(v: Seq<JsonV>, n: nat) -> Map<(Seq<char>, Seq<char>), u32>
    decreases n,
{
    if n == 0 || n > v.len() {
        Map::empty()
    } else {
        let before = ranks_of(v, (n - 1) as nat);
        match merge_of(v[n - 1]) {
            Some(p) if !before.dom().contains(p) => before.insert(p, (n - 1) as u32),
            _ => before,
        }
    }
}

/// The first `Regex` string anywhere in a description.
pub open spec fn regex_in(v: JsonV) -> Option<Seq<char>>
    decreases v, 0nat,
{
    match v {
        JsonV::Obj(m) => match entry_from(m, "Regex"@, 0) {
            Some(JsonV::Str(s)) => Some(s),
            _ => regex_in_entries(m, 0),
        },
        JsonV::Arr(a) => regex_in_items(a, 0),
        _ => None,
    }
}

pub open spec fn regex_in_entries(m: Seq<(Seq<char>, JsonV)>, from: nat) -> Option<Seq<char>>
    decreases m, m.len() - from,
{
    if from >= m.len() {
        None
    } else {
        match regex_in(m[from as int].1) {
            Some(s) => Some(s),
            None => regex_in_entries(m, from + 1),
        }
    }
}

pub open spec fn regex_in_items(a: Seq<JsonV>, from: nat) -> Option<Seq<char>>
    decreases a, a.len() - from,
{
    if from >= a.len() {
        None
    } else {
        match regex_in(a[from as int]) {
            Some(s) => Some(s),
            None => regex_in_items(a, from + 1),
        }
    }
}

/// The original GPT-2 alternation.
pub open spec fn classic_split() -> Split {
    Split {
        word_any_prefix: false,
        digits: Digits::Run,
        digit_space: true,
        symbol_newline: false,
        newline_rule: false,
        ci_contractions: false,
    }
}

/// The split rule that a pre-tokenizer declares.
pub open spec fn split_of(pre: JsonV) -> Split {
    match regex_in(pre) {
        Some(re) => Split {
            word_any_prefix: has(re, "[^\\r\\n\\p{L}\\p{N}]?"@),
            digits: if has(re, "\\p{N}{1,3}"@) {
                Digits::Upto3
            } else if has(re, "\\p{N}+"@) {
                Digits::Run
            } else {
                Digits::Single
            },
            digit_space: has(re, " ?\\p{N}"@),
            symbol_newline: has(re, "]+[\\r\\n]*"@),
            newline_rule: has(re, "\\s*[\\r\\n]+"@),
            ci_contractions: has(re, "(?i"@),
        },
        None => classic_split(),
    }
}

/// Whether a decoder step removes the separator that a prepend added.
pub open spec fn is_strip(d: JsonV) -> bool {
    &&& d.field("type"@).as_str() == Some("Strip"@)
    &&& d.field("content"@).as_str() == Some(" "@)
    &&& (d.field("start"@).as_u64() matches Some(n) && n >= 1)
}

/// Added tokens hold raw text: a vocabulary entry of four spaces is four spaces,
/// not four byte-level codepoints.
pub struct TableV {
    pub tokens: Seq<Seq<char>>,
    pub special: Seq<bool>,
    pub literal: Seq<bool>,
    pub added: Seq<(Seq<char>, u32)>,
}

/// An added token put in its place: after those at least as long in bytes, and
/// before the shorter ones.
pub open spec fn insert_longest(v: Seq<(Seq<char>, u32)>, item: (Seq<char>, u32)) -> Seq<(Seq<char>, u32)>
    decreases v.len(),
{
    if v.len() == 0 {
        seq![item]
    } else if encode_utf8(v.last().0).len() >= encode_utf8(item.0).len() {
        v.push(item)
    } else {
        insert_longest(v.drop_last(), item).push(v.last())
    }
}

/// The tables after the first `n` added tokens. One that names no text or no id
/// is skipped, and one whose text is empty is never looked for.
pub open spec fn with_added(base: TableV, list: Seq<JsonV>, n: nat) -> TableV
    decreases n,
{
    if n == 0 || n > list.len() {
        base
    } else {
        let t = with_added(base, list, (n - 1) as nat);
        let a = list[n - 1];
        match (a.field("content"@).as_str(), a.field("id"@).as_u64()) {
            (Some(c), Some(wide)) => {
                let id = wide as u32;
                let special = a.field("special"@).as_bool() == Some(true);
                TableV {
                    tokens: if id < t.tokens.len() {
                        t.tokens.update(id as int, c)
                    } else {
                        t.tokens
                    },
                    special: if id < t.tokens.len() {
                        t.special.update(id as int, special)
                    } else {
                        t.special
                    },
                    literal: if id < t.tokens.len() {
                        t.literal.update(id as int, true)
                    } else {
                        t.literal
                    },
                    added: if c.len() > 0 {
                        insert_longest(t.added, (c, id))
                    } else {
                        t.added
                    },
                }
            },
            _ => t,
        }
    }
}

/// The separator on its own.
pub open spec fn separator() -> Seq<char> {
    seq![SEPARATOR]
}

/// The tokenizer that a description declares.
pub open spec fn tokenizer_of(j: JsonV) -> TokenizerV {
    let model = j.field("model"@);
    let m = entries(model.field("vocab"@));
    let merges = elements(model.field("merges"@));
    let norm = text_of(j.field("normalizer"@));
    let desc = text_of(j.field("pre_tokenizer"@)) + text_of(j.field("decoder"@));
    let decoders = elements(j.field("decoder"@).field("decoders"@));
    let size = max_id(m, m.len()) as nat + 1;
    let list = elements(j.field("added_tokens"@));
    let table = with_added(
        TableV {
            tokens: tokens_of(m, size, m.len()),
            special: Seq::new(size, |i: int| false),
            literal: Seq::new(size, |i: int| false),
            added: Seq::empty(),
        },
        list,
        list.len(),
    );
    let metaspace = has(desc, "Metaspace"@) || has(desc, separator()) || has(norm, separator());
    TokenizerV {
        vocab: vocab_of(m, m.len()),
        tokens: table.tokens,
        ranks: ranks_of(merges, merges.len()),
        added: table.added,
        special: table.special,
        literal: table.literal,
        metaspace,
        prefix_space: has(norm, "\"Prepend\""@) || has(desc, "prepend_scheme\":\"always"@) || (metaspace && has(
            desc,
            "add_prefix_space\":true"@,
        )),
        strip_space: is_strip(j.field("decoder"@)) || exists|i: int|
            0 <= i < decoders.len() && is_strip(#[trigger] decoders[i]),
        split: split_of(j.field("pre_tokenizer"@)),
    }
}

/// Why a description makes no tokenizer: it lists no vocabulary, or one of more ids than
/// the machine can count.
pub open spec fn refusal(j: JsonV) -> Option<Seq<char>> {
    match j.field("model"@).field("vocab"@).as_object() {
        None => Some("tokenizer.json has no model.vocab"@),
        Some(m) => if max_id(m, m.len()) + 1 > usize::MAX {
            Some("tokenizer.json has a vocabulary id out of range"@)
        } else {
            None
        },
    }
}

fn entry_id(v: &Json) -> (r: u32)
    ensures
        r == id_of(v@),
{
    match v.as_u64() {
        Some(n) => n as u32,
        None => 0,
    }
}

/// The vocabulary and its largest id.
fn load_vocab(v: &Json) -> (r: (StringHashMap<u32>, u32))
    ensures
        r.0@ == vocab_of(entries(v@), entries(v@).len()),
        r.1 == max_id(entries(v@), entries(v@).len()),
{
    let ghost m = entries(v@);
    let mut vocab: StringHashMap<u32> = StringHashMap::new();
    let mut max: u32 = 0;
    let mut i: usize = 0;
    let n: usize = v.size();
    while i < n
        invariant
            i <= n == m.len(),
            m == entries(v@),
            vocab@ == vocab_of(m, i as nat),
            max == max_id(m, i as nat),
        decreases n - i,
    {
        let id: u32 = entry_id(v.value(i));
        vocab.insert(v.key(i).to_owned(), id);
        if id > max {
            max = id;
        }
        i += 1;
    }
    (vocab, max)
}

/// The texts by id.
fn load_tokens(v: &Json, size: usize) -> (r: Listing)
    requires
        size <= u32::MAX + 1,
        forall|k: int| 0 <= k < entries(v@).len() ==> id_of((#[trigger] entries(v@)[k]).1) < size,
    ensures
        r.valid(),
        r.texts() == tokens_of(entries(v@), size as nat, entries(v@).len()),
        r.specials() == Seq::new(size as nat, |i: int| false),
        r.literals() == Seq::new(size as nat, |i: int| false),
{
    let ghost m = entries(v@);
    let ghost no = Seq::new(size as nat, |i: int| false);
    let mut out = Listing::new(size);
    assert(out.texts() =~= tokens_of(m, size as nat, 0));
    assert(out.specials() =~= no);
    assert(out.literals() =~= no);
    let mut i: usize = 0;
    let n: usize = v.size();
    while i < n
        invariant
            i <= n == m.len(),
            m == entries(v@),
            no == Seq::new(size as nat, |i: int| false),
            out.valid(),
            out.bound() == size,
            forall|k: int| 0 <= k < m.len() ==> id_of((#[trigger] m[k]).1) < size,
            out.texts() == tokens_of(m, size as nat, i as nat),
            out.specials() == no,
            out.literals() == no,
        decreases n - i,
    {
        let id: u32 = entry_id(v.value(i));
        assert(id == id_of(m[i as int].1));
        out.put(id, Entry { text: v.key(i).to_owned(), special: false, literal: false });
        assert(no.update(id as int, false) =~= no);
        i += 1;
    }
    out
}

proof fn lemma_max_id(m: Seq<(Seq<char>, JsonV)>, n: nat)
    requires
        n <= m.len(),
    ensures
        forall|k: int| 0 <= k < n ==> id_of((#[trigger] m[k]).1) <= max_id(m, n),
    decreases n,
{
    if n > 0 {
        lemma_max_id(m, (n - 1) as nat);
    }
}

/// The two halves of a merge.
fn merge_halves(v: &Json) -> (r: Option<(String, String)>)
    ensures
        match r {
            Some(p) => merge_of(v@) == Some((p.0@, p.1@)),
            None => merge_of(v@) is None,
        },
{
    match v {
        Json::Str(s) => {
            let c = chars_of(s.as_str());
            proof {
                reveal_strlit(" ");
                assert(" "@ =~= seq![' ']);
            }
            match find(c.as_slice(), 0, " ") {
                Some(i) => {
                    let a = substring(c.as_slice(), 0, i);
                    let b = substring(c.as_slice(), i + 1, c.len());
                    Some((a, b))
                },
                None => None,
            }
        },
        Json::Arr(_) => {
            if v.count() == 2 {
                Some((text_or_empty(v.item(0)), text_or_empty(v.item(1))))
            } else {
                None
            }
        },
        _ => None,
    }
}

fn text_or_empty(v: &Json) -> (r: String)
    ensures
        r@ == string_or_empty(v@),
{
    match v.as_str() {
        Some(s) => s.to_owned(),
        None => String::new(),
    }
}

/// The merge ranks, under pair keys.
fn load_ranks(v: &Json) -> (ranks: StringHashMap<u32>)
    ensures
        ranks_view(ranks@) == ranks_of(elements(v@), elements(v@).len()),
{
    let ghost list = elements(v@);
    let mut ranks: StringHashMap<u32> = StringHashMap::new();
    let mut i: usize = 0;
    let n: usize = v.count();
    assert(ranks_view(ranks@) =~= ranks_of(list, 0));
    while i < n
        invariant
            i <= n == list.len(),
            list == elements(v@),
            ranks_view(ranks@) == ranks_of(list, i as nat),
        decreases n - i,
    {
        if let Some((a, b)) = merge_halves(v.item(i)) {
            let key = key_of(a.as_str(), b.as_str());
            let ghost before = ranks@;
            assert(ranks_view(before).dom().contains((a@, b@)) == before.dom().contains(key@));
            if !ranks.contains_key(key.as_str()) {
                ranks.insert(key, i as u32);
                proof {
                    assert forall|p: (Seq<char>, Seq<char>)| #[trigger] pair_key(p.0, p.1) == key@ implies p == (
                        a@,
                        b@,
                    ) by {
                        lemma_pair_key(p.0, p.1, a@, b@);
                    }
                    assert(ranks_view(ranks@) =~= ranks_view(before).insert((a@, b@), i as u32));
                }
            }
        }
        i += 1;
    }
    ranks
}

/// Find the first `{"Regex": "..."}` anywhere in the pre-tokenizer description.
fn find_regex(v: &Json) -> (r: Option<String>)
    ensures
        match r {
            Some(s) => regex_in(v@) == Some(s@),
            None => regex_in(v@) is None,
        },
    decreases v,
{
    match v {
        Json::Obj(m) => {
            if let Some(Json::Str(s)) = v.get("Regex") {
                return Some(s.clone());
            }
            let ghost mv = entries(v@);
            let mut i: usize = 0;
            while i < m.len()
                invariant
                    i <= m@.len() == mv.len(),
                    *v == Json::Obj(*m),
                    mv == entries(v@),
                    regex_in(v@) == regex_in_entries(mv, i as nat),
                decreases m.len() - i,
            {
                assert(decreases_to!(*v => v->Obj_0));
                assert(decreases_to!(m => m@));
                assert(decreases_to!(m@ => m@[i as int]));
                assert(decreases_to!(m@[i as int] => m@[i as int].1));
                assert(mv[i as int] == (m@[i as int].0@, m@[i as int].1@));
                if let Some(s) = find_regex(&m[i].1) {
                    return Some(s);
                }
                i += 1;
            }
            None
        },
        Json::Arr(a) => {
            let ghost av = elements(v@);
            let mut i: usize = 0;
            while i < a.len()
                invariant
                    i <= a@.len() == av.len(),
                    *v == Json::Arr(*a),
                    av == elements(v@),
                    regex_in(v@) == regex_in_items(av, i as nat),
                decreases a.len() - i,
            {
                assert(decreases_to!(*v => v->Arr_0));
                assert(decreases_to!(a => a@));
                assert(decreases_to!(a@ => a@[i as int]));
                assert(av[i as int] == a@[i as int]@);
                if let Some(s) = find_regex(&a[i]) {
                    return Some(s);
                }
                i += 1;
            }
            None
        },
        _ => None,
    }
}

impl Split {
    /// The rule that a pre-tokenizer declares.
    fn declared(pre: &Json) -> (r: Split)
        ensures
            r == split_of(pre@),
    {
        match find_regex(pre) {
            Some(re) => {
                let re = re.as_str();
                Split {
                    word_any_prefix: contains(re, "[^\\r\\n\\p{L}\\p{N}]?"),
                    digits: if contains(re, "\\p{N}{1,3}") {
                        Digits::Upto3
                    } else if contains(re, "\\p{N}+") {
                        Digits::Run
                    } else {
                        Digits::Single
                    },
                    digit_space: contains(re, " ?\\p{N}"),
                    symbol_newline: contains(re, "]+[\\r\\n]*"),
                    newline_rule: contains(re, "\\s*[\\r\\n]+"),
                    ci_contractions: contains(re, "(?i"),
                }
            },
            None => Split {
                word_any_prefix: false,
                digits: Digits::Run,
                digit_space: true,
                symbol_newline: false,
                newline_rule: false,
                ci_contractions: false,
            },
        }
    }
}

/// Whether a decoder step removes the separator that a prepend added.
fn strips(d: &Json) -> (r: bool)
    ensures
        r == is_strip(d@),
{
    let long_enough = match d.field("start").as_u64() {
        Some(n) => n >= 1,
        None => false,
    };
    d.field("type").is_str("Strip") && d.field("content").is_str(" ") && long_enough
}

/// An added token put in its place among the others.
fn place(added: &mut Vec<(String, u32)>, content: String, id: u32)
    requires
        content@.len() > 0,
        forall|k: int| 0 <= k < old(added)@.len() ==> (#[trigger] old(added)@[k]).0@.len() > 0,
    ensures
        added_view(final(added)@) == insert_longest(added_view(old(added)@), (content@, id)),
        forall|k: int| 0 <= k < final(added)@.len() ==> (#[trigger] final(added)@[k]).0@.len() > 0,
{
    let len: usize = bytes_of(content.as_str()).len();
    let ghost all = added@;
    let ghost item = (content@, id);
    let mut pos: usize = added.len();
    let ghost want = insert_longest(added_view(all), item);
    assert(all.subrange(0, all.len() as int) =~= all);
    assert(all.subrange(all.len() as int, all.len() as int) =~= Seq::<(String, u32)>::empty());
    assert(want =~= insert_longest(added_view(all.subrange(0, pos as int)), item) + added_view(
        all.subrange(pos as int, all.len() as int),
    ));
    while pos > 0 && bytes_of(added[pos - 1].0.as_str()).len() < len
        invariant
            pos <= added@.len(),
            added@ == all,
            item == (content@, id),
            len == encode_utf8(content@).len(),
            want == insert_longest(added_view(all.subrange(0, pos as int)), item) + added_view(
                all.subrange(pos as int, all.len() as int),
            ),
        decreases pos,
    {
        proof {
            let head = all.subrange(0, pos as int);
            let shorter = all.subrange(0, pos - 1);
            assert(added_view(head).drop_last() =~= added_view(shorter));
            assert(added_view(head).last() == (all[pos - 1].0@, all[pos - 1].1));
            assert(insert_longest(added_view(head), item) + added_view(all.subrange(pos as int, all.len() as int))
                =~= insert_longest(added_view(shorter), item) + added_view(all.subrange(pos - 1, all.len() as int)));
        }
        pos -= 1;
    }
    proof {
        let head = added_view(all.subrange(0, pos as int));
        if pos > 0 {
            assert(head.last() == (all[pos - 1].0@, all[pos - 1].1));
        }
        assert(insert_longest(head, item) =~= head.push(item));
    }
    added.insert(pos, (content, id));
    assert(added_view(added@) =~= want);
    assert forall|k: int| 0 <= k < added@.len() implies (#[trigger] added@[k]).0@.len() > 0 by {
        if k < pos {
            assert(added@[k] == all[k]);
        } else if k > pos {
            assert(added@[k] == all[k - 1]);
        }
    }
}

/// What a list of added tokens holds.
pub open spec fn added_view(v: Seq<(String, u32)>) -> Seq<(Seq<char>, u32)> {
    Seq::new(v.len(), |i: int| (v[i].0@, v[i].1))
}

/// Added tokens are tried longest first, so that `<|im_start|>` wins over any
/// prefix of itself.
pub proof fn law_longest_first(v: Seq<(Seq<char>, u32)>, item: (Seq<char>, u32))
    requires
        forall|i: int, j: int| 0 <= i < j < v.len() ==> encode_utf8((#[trigger] v[i]).0).len() >= encode_utf8((#[trigger] v[j]).0).len(),
    ensures
        ({
            let w = insert_longest(v, item);
            forall|i: int, j: int| 0 <= i < j < w.len() ==> encode_utf8((#[trigger] w[i]).0).len() >= encode_utf8((#[trigger] w[j]).0).len()
        }),
        forall|x: (Seq<char>, u32)| #[trigger] insert_longest(v, item).contains(x) ==> x == item || v.contains(x),
    decreases v.len(),
{
    let w = insert_longest(v, item);
    if v.len() == 0 {
    } else if encode_utf8(v.last().0).len() >= encode_utf8(item.0).len() {
        assert forall|x: (Seq<char>, u32)| #[trigger] w.contains(x) implies x == item || v.contains(x) by {
            let k = choose|k: int| 0 <= k < w.len() && w[k] == x;
            if k < v.len() {
                assert(v[k] == x);
            }
        }
    } else {
        law_longest_first(v.drop_last(), item);
        let u = insert_longest(v.drop_last(), item);
        assert forall|x: (Seq<char>, u32)| #[trigger] w.contains(x) implies x == item || v.contains(x) by {
            let k = choose|k: int| 0 <= k < w.len() && w[k] == x;
            if k < u.len() {
                assert(u[k] == x);
                assert(u.contains(x));
                if v.drop_last().contains(x) {
                    let q = choose|q: int| 0 <= q < v.drop_last().len() && v.drop_last()[q] == x;
                    assert(v[q] == x);
                }
            } else {
                assert(v[v.len() - 1] == x);
            }
        }
        assert forall|i: int, j: int| 0 <= i < j < w.len() implies encode_utf8((#[trigger] w[i]).0).len()
            >= encode_utf8((#[trigger] w[j]).0).len() by {
            if j == w.len() - 1 {
                assert(u.contains(u[i]));
                if v.drop_last().contains(u[i]) {
                    let q = choose|q: int| 0 <= q < v.drop_last().len() && v.drop_last()[q] == u[i];
                    assert(v[q] == u[i]);
                }
            } else {
                assert(u[i] == w[i] && u[j] == w[j]);
            }
        }
    }
}

/// The tables that added tokens go into.
struct Table {
    listing: Listing,
    added: Vec<(String, u32)>,
}

impl Table {
    spec fn view(self) -> TableV {
        TableV {
            tokens: self.listing.texts(),
            special: self.listing.specials(),
            literal: self.listing.literals(),
            added: added_view(self.added@),
        }
    }

    spec fn valid(self) -> bool {
        &&& self.listing.valid()
        &&& forall|k: int| 0 <= k < self.added@.len() ==> (#[trigger] self.added@[k]).0@.len() > 0
    }

    /// The tables with one added token more.
    fn take(self, a: &Json) -> (r: Table)
        requires
            self.valid(),
        ensures
            r.valid(),
            r.view() == with_added(self.view(), seq![a@], 1),
    {
        let ghost before = self.view();
        let mut t = self;
        assert(with_added(before, seq![a@], 0) == before);
        if let (Some(content), Some(wide)) = (a.field("content").as_str(), a.field("id").as_u64()) {
            let id: u32 = wide as u32;
            let special = match a.field("special").as_bool() {
                Some(b) => b,
                None => false,
            };
            if (id as usize) < t.listing.size() {
                t.listing.put(id, Entry { text: content.to_owned(), special, literal: true });
            }
            if !content.is_empty() {
                place(&mut t.added, content.to_owned(), id);
            }
        }
        t
    }
}

impl Tokenizer {
    /// Build from the text of a `tokenizer.json`.
    pub fn load(text: &[u8], file: &str) -> (r: Result<Tokenizer, String>)
        ensures
            match r {
                Ok(t) => {
                    &&& parsed(text@) matches Ok(j)
                    &&& refusal(j) is None && t.valid() && t@ == tokenizer_of(j)
                },
                Err(e) => match parsed(text@) {
                    Ok(j) => refusal(j) == Some(e@),
                    Err(why) => e@ == file@ + ": "@ + why,
                },
            },
    {
        match parse_file(text, file) {
            Ok(j) => Tokenizer::from_json(&j),
            Err(e) => Err(e),
        }
    }

    /// Build from an already-parsed `tokenizer.json`, as embedded in a `.moe`.
    ///
    /// How text is cut up before BPE is declared in the file; it is read rather
    /// than assumed from a family.
    pub fn from_json(j: &Json) -> (r: Result<Tokenizer, String>)
        ensures
            match r {
                Ok(t) => refusal(j@) is None && t.valid() && t@ == tokenizer_of(j@),
                Err(e) => refusal(j@) == Some(e@),
            },
    {
        let model = j.field("model");
        let entries_json = model.field("vocab");
        if entries_json.as_object().is_none() {
            return Err("tokenizer.json has no model.vocab".to_owned());
        }
        let ghost m = entries(entries_json@);
        let (vocab, max) = load_vocab(entries_json);
        if max as usize >= usize::MAX {
            return Err("tokenizer.json has a vocabulary id out of range".to_owned());
        }
        let ranks = load_ranks(model.field("merges"));
        let norm = j.field("normalizer").text();
        let pre_text = j.field("pre_tokenizer").text();
        let decoder_text = j.field("decoder").text();
        let desc = join(pre_text.as_str(), decoder_text.as_str());
        proof {
            reveal_strlit("\u{2581}");
            assert("\u{2581}"@ =~= separator());
        }
        let metaspace = contains(desc.as_str(), "Metaspace") || contains(desc.as_str(), "\u{2581}") || contains(
            norm.as_str(),
            "\u{2581}",
        );
        let prefix_space = contains(norm.as_str(), "\"Prepend\"") || contains(
            desc.as_str(),
            "prepend_scheme\":\"always",
        ) || (metaspace && contains(desc.as_str(), "add_prefix_space\":true"));
        let strip_space = any_strip(j.field("decoder"));
        let split = Split::declared(j.field("pre_tokenizer"));
        let size: usize = max as usize + 1;
        proof {
            lemma_max_id(m, m.len());
        }
        let listing = load_tokens(entries_json, size);
        let mut table = Table { listing, added: Vec::new() };
        let ghost base = TableV {
            tokens: tokens_of(m, size as nat, m.len()),
            special: Seq::new(size as nat, |i: int| false),
            literal: Seq::new(size as nat, |i: int| false),
            added: Seq::empty(),
        };
        assert(table.view().special =~= base.special);
        assert(table.view().literal =~= base.literal);
        assert(table.view().added =~= base.added);
        let list = j.field("added_tokens");
        let ghost lv = elements(list@);
        let n: usize = list.count();
        let mut i: usize = 0;
        while i < n
            invariant
                i <= n == lv.len(),
                lv == elements(list@),
                table.valid(),
                table.view() == with_added(base, lv, i as nat),
            decreases n - i,
        {
            proof {
                assert(with_added(table.view(), seq![lv[i as int]], 0) == table.view());
                assert(with_added(table.view(), seq![lv[i as int]], 1) == with_added(base, lv, (i + 1) as nat));
            }
            table = table.take(list.item(i));
            i += 1;
        }
        let Table { listing, added } = table;
        let t = Tokenizer {
            vocab,
            listing,
            ranks,
            added,
            metaspace,
            prefix_space,
            strip_space,
            split,
        };
        assert(t@.added =~= added_view(added@));
        Ok(t)
    }
}

/// Whether the decoder, or one of its steps, strips a leading space.
fn any_strip(decoder: &Json) -> (r: bool)
    ensures
        r == ({
            let steps = elements(decoder@.field("decoders"@));
            is_strip(decoder@) || exists|i: int| 0 <= i < steps.len() && is_strip(#[trigger] steps[i])
        }),
{
    if strips(decoder) {
        return true;
    }
    let steps = decoder.field("decoders");
    let ghost sv = elements(steps@);
    let n: usize = steps.count();
    let mut i: usize = 0;
    while i < n
        invariant
            i <= n == sv.len(),
            sv == elements(decoder@.field("decoders"@)),
            sv == elements(steps@),
            forall|k: int| 0 <= k < i ==> !is_strip(#[trigger] sv[k]),
        decreases n - i,
    {
        if strips(steps.item(i)) {
            assert(is_strip(sv[i as int]));
            return true;
        }
        i += 1;
    }
    false
}

// ----------------------------------------------------------------- streaming

/// The largest index up to `k` at which the bytes so far are valid UTF-8.
pub open spec fn valid_up_to(bytes: Seq<u8>, k: nat) -> nat
    decreases k,
{
    if k == 0 || valid_utf8(bytes.subrange(0, k as int)) {
        k
    } else {
        valid_up_to(bytes, (k - 1) as nat)
    }
}

/// What `Utf8Error::error_len` says of bytes that are not valid UTF-8: the
/// length of the invalid sequence, or nothing where the input ends too early.
pub uninterp spec fn invalid_len(bytes: Seq<u8>) -> Option<usize>;

/// `std::str::from_utf8`: the text of valid bytes; of others, the index up to
/// which they are valid and the length of the invalid sequence there, which lies
/// inside the bytes. Bytes that some continuation would make valid merely end
/// too early.
#[verifier::external_body]
pub(crate) fn check_utf8(bytes: &[u8]) -> (r: Result<String, (usize, Option<usize>)>)
    ensures
        match r {
            Ok(s) => valid_utf8(bytes@) && s@ == decode_utf8(bytes@),
            Err(e) => {
                &&& !valid_utf8(bytes@)
                &&& e.0 == valid_up_to(bytes@, bytes@.len())
                &&& e.1 == invalid_len(bytes@)
                &&& e.1 matches Some(n) ==> 0 < n && e.0 + n <= bytes@.len()
                &&& forall|more: Seq<u8>| valid_utf8(#[trigger] (bytes@ + more)) ==> e.1 is None
            },
        },
{
    match std::str::from_utf8(bytes) {
        Ok(s) => Ok(s.to_owned()),
        Err(e) => Err((e.valid_up_to(), e.error_len())),
    }
}

/// What a [`Stream`] holds: bytes of a character that has not all arrived, and
/// whether any byte has.
pub struct StreamV {
    pub buf: Seq<u8>,
    pub started: bool,
}

/// The text that the bytes complete, and what is left of them. An invalid
/// sequence gives a replacement character.
pub open spec fn emitted(b: Seq<u8>) -> (Seq<char>, Seq<u8>)
    decreases b.len(),
{
    if valid_utf8(b) {
        (decode_utf8(b), Seq::empty())
    } else {
        let good = valid_up_to(b, b.len()) as int;
        let text = decode_utf8(b.subrange(0, good));
        match invalid_len(b) {
            Some(n) if 0 < n && good + n <= b.len() => {
                let (more, rest) = emitted(b.subrange(good + n, b.len() as int));
                (text.push('\u{fffd}') + more, rest)
            },
            _ => (text, b.subrange(good, b.len() as int)),
        }
    }
}

impl StreamV {
    /// The buffer once a token's bytes have arrived: the decoder's leading-space
    /// strip applies once, to the very first byte.
    pub open spec fn filled(self, tok: TokenizerV, id: u32) -> Seq<u8> {
        let all = self.buf + tok.token_bytes(id);
        if !self.started && tok.strip_space && all.len() > 0 && all[0] == 32 {
            all.drop_first()
        } else {
            all
        }
    }

    /// The state after one token.
    pub open spec fn after(self, tok: TokenizerV, id: u32) -> StreamV {
        StreamV {
            buf: emitted(self.filled(tok, id)).1,
            started: self.started || (self.buf + tok.token_bytes(id)).len() > 0,
        }
    }

    /// The text that one token completes.
    pub open spec fn text(self, tok: TokenizerV, id: u32) -> Seq<char> {
        emitted(self.filled(tok, id)).0
    }
}

/// Incremental detokeniser: holds back the tail of a character whose bytes have
/// not all arrived yet, so streaming never prints a broken glyph.
pub struct Stream {
    buf: Vec<u8>,
    started: bool,
}

impl View for Stream {
    type V = StreamV;

    closed spec fn view(&self) -> StreamV {
        StreamV { buf: self.buf@, started: self.started }
    }
}

impl Default for Stream {
    /// A stream that nothing has been fed to.
    fn default() -> (s: Stream)
        ensures
            s@ == (StreamV { buf: Seq::empty(), started: false }),
    {
        Stream { buf: Vec::new(), started: false }
    }
}

proof fn lemma_valid_up_to(b: Seq<u8>, k: nat)
    requires
        k <= b.len(),
    ensures
        valid_up_to(b, k) <= k,
        valid_utf8(b.subrange(0, valid_up_to(b, k) as int)),
    decreases k,
{
    if k == 0 {
        assert(b.subrange(0, 0).len() == 0);
    } else if !valid_utf8(b.subrange(0, k as int)) {
        lemma_valid_up_to(b, (k - 1) as nat);
    }
}

impl Stream {
    /// Feed one token, returning whatever text is now complete.
    pub fn push(&mut self, tok: &Tokenizer, id: u32) -> (out: String)
        requires
            tok.valid(),
        ensures
            out@ == old(self)@.text(tok@, id),
            final(self)@ == old(self)@.after(tok@, id),
            forall|more: Seq<u8>|
                valid_utf8(#[trigger] (old(self)@.filled(tok@, id) + more)) ==> encode_utf8(out@) + final(self)@.buf
                    == old(self)@.filled(tok@, id),
    {
        let mut buf: Vec<u8> = Vec::new();
        std::mem::swap(&mut buf, &mut self.buf);
        tok.push_bytes(id, &mut buf);
        if !self.started && buf.len() > 0 {
            self.started = true;
            if tok.strips_leading_space() && buf[0] == 32 {
                let ghost all = buf@;
                let _ = buf.remove(0);
                assert(buf@ =~= all.drop_first());
            }
        }
        let ghost start = buf@;
        let mut out = String::new();
        assert(out@ + emitted(start).0 =~= emitted(start).0);
        assert(encode_utf8(out@) + buf@ =~= start);
        loop
            invariant
                forall|more: Seq<u8>|
                    valid_utf8(#[trigger] (start + more)) ==> encode_utf8(out@) + buf@ == start,
                out@ + emitted(buf@).0 == emitted(start).0,
                emitted(buf@).1 == emitted(start).1,
                start == old(self)@.filled(tok@, id),
                self.started == old(self)@.after(tok@, id).started,
            decreases buf@.len(),
        {
            match check_utf8(buf.as_slice()) {
                Ok(s) => {
                    proof {
                        lemma_encode_concat(out@, s@);
                        decode_utf8_encode_utf8(buf@);
                    }
                    let ghost before = encode_utf8(out@) + buf@;
                    out.append(s.as_str());
                    buf.clear();
                    assert(buf@ =~= Seq::<u8>::empty());
                    assert(encode_utf8(out@) + buf@ =~= before);
                    self.buf = buf;
                    return out;
                },
                Err((good, bad)) => {
                    proof {
                        lemma_valid_up_to(buf@, buf@.len());
                    }
                    let ghost b = buf@;
                    let tail = buf.split_off(good);
                    assert(buf@ =~= b.subrange(0, good as int));
                    assert(tail@ =~= b.subrange(good as int, b.len() as int));
                    let ghost before = out@;
                    if let Ok(s) = check_utf8(buf.as_slice()) {
                        out.append(s.as_str());
                    }
                    assert(out@ == before + decode_utf8(b.subrange(0, good as int)));
                    proof {
                        lemma_encode_concat(before, decode_utf8(b.subrange(0, good as int)));
                        decode_utf8_encode_utf8(b.subrange(0, good as int));
                        assert(encode_utf8(out@) + tail@ =~= encode_utf8(before) + b);
                    }
                    match bad {
                        // Genuinely invalid bytes: emit a replacement and move on.
                        Some(n) => {
                            out.push('\u{fffd}');
                            let mut tail = tail;
                            buf = tail.split_off(n);
                            assert(buf@ =~= b.subrange(good + n, b.len() as int));
                            assert(out@ + emitted(buf@).0 =~= before + emitted(b).0);
                            assert forall|more: Seq<u8>| valid_utf8(#[trigger] (start + more)) implies false by {
                                assert(encode_utf8(before) + b == start);
                                assert((encode_utf8(before) + b) + more =~= encode_utf8(before) + (b + more));
                                lemma_rest_valid(before, b + more);
                            }
                        },
                        // Truncated tail: keep it until the next token arrives.
                        None => {
                            self.buf = tail;
                            return out;
                        },
                    }
                },
            }
        }
    }
}

} // verus!
