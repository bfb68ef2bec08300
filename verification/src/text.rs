//! Text as sequences of characters.
//!
//! Strings enter and leave the library as `str` and `String`; in between they
//! are vectors of `char`, which index in one step and whose contents Verus sees.

use vstd::prelude::*;
use vstd::string::*;
use vstd::utf8::{encode_utf8, encode_utf8_valid_utf8, partial_valid_partial_invalid_utf8, valid_utf8};

verus! {

/// `String::push` appends one character to the text.
pub assume_specification[ String::push ](s: &mut String, c: char)
    ensures
        final(s)@ == old(s)@.push(c),
;

/// The characters of a string, in order.
pub fn chars_of(s: &str) -> (out: Vec<char>)
    ensures
        out@ == s@,
{
    let mut out: Vec<char> = Vec::new();
    for c in it: s.chars()
        invariant
            it.seq() == s@,
            out@ == s@.subrange(0, it.index()),
    {
        out.push(c);
    }
    out
}

/// The string made of the given characters.
pub fn string_of(chars: &[char]) -> (out: String)
    ensures
        out@ == chars@,
{
    let mut out = String::new();
    let mut i: usize = 0;
    while i < chars.len()
        invariant
            i <= chars.len(),
            out@ == chars@.subrange(0, i as int),
        decreases chars.len() - i,
    {
        out.push(chars[i]);
        i += 1;
    }
    assert(chars@.subrange(0, chars.len() as int) =~= chars@);
    out
}

/// The string made of `chars[from..to]`.
pub fn substring(chars: &[char], from: usize, to: usize) -> (out: String)
    requires
        from <= to <= chars.len(),
    ensures
        out@ == chars@.subrange(from as int, to as int),
{
    let mut out = String::new();
    let mut i: usize = from;
    while i < to
        invariant
            from <= i <= to <= chars.len(),
            out@ == chars@.subrange(from as int, i as int),
        decreases to - i,
    {
        out.push(chars[i]);
        i += 1;
    }
    out
}

/// The bytes of a string in UTF-8.
pub fn bytes_of(s: &str) -> (out: Vec<u8>)
    ensures
        out@ == vstd::utf8::encode_utf8(s@),
{
    s.as_bytes_vec()
}

/// Whether two strings hold the same text.
pub fn same(a: &str, b: &str) -> (r: bool)
    ensures
        r == (a@ == b@),
{
    a.to_owned() == b.to_owned()
}

/// Two strings one after the other.
pub fn join(a: &str, b: &str) -> (r: String)
    ensures
        r@ == a@ + b@,
{
    let mut out = a.to_owned();
    out.append(b);
    out
}

/// Three strings one after the other.
pub fn join3(a: &str, b: &str, c: &str) -> (r: String)
    ensures
        r@ == a@ + b@ + c@,
{
    let mut out = a.to_owned();
    out.append(b);
    out.append(c);
    out
}

/// Whether `p` stands in `s` at position `i`.
pub open spec fn is_at(s: Seq<char>, i: int, p: Seq<char>) -> bool {
    0 <= i && i + p.len() <= s.len() && s.subrange(i, i + p.len()) == p
}

/// Whether `p` stands in `s` at position `i`.
pub fn at(s: &[char], i: usize, p: &str) -> (r: bool)
    ensures
        r == is_at(s@, i as int, p@),
{
    let pat = chars_of(p);
    if i > s.len() || pat.len() > s.len() - i {
        return false;
    }
    let mut k: usize = 0;
    while k < pat.len()
        invariant
            k <= pat.len(),
            pat@ == p@,
            i + pat.len() <= s.len(),
            forall|j: int| 0 <= j < k ==> s@[i + j] == p@[j],
        decreases pat.len() - k,
    {
        if s[i + k] != pat[k] {
            assert(s@.subrange(i as int, i + p@.len())[k as int] != p@[k as int]);
            return false;
        }
        k += 1;
    }
    assert(s@.subrange(i as int, i + p@.len()) =~= p@);
    true
}

/// The first position at or after `from` where `p` stands in `s`.
pub open spec fn first_at(s: Seq<char>, from: int, p: Seq<char>) -> Option<int>
    decreases s.len() - from + 1,
{
    if from > s.len() {
        None
    } else if is_at(s, from, p) {
        Some(from)
    } else {
        first_at(s, from + 1, p)
    }
}

/// A position that is found lies where the pattern fits.
pub proof fn lemma_first_at(s: Seq<char>, from: int, p: Seq<char>)
    requires
        0 <= from,
    ensures
        first_at(s, from, p) matches Some(i) ==> from <= i && is_at(s, i, p),
    decreases s.len() - from + 1,
{
    if from <= s.len() && !is_at(s, from, p) {
        lemma_first_at(s, from + 1, p);
    }
}

/// The first position at or after `from` where `p` stands in `s`.
pub fn find(s: &[char], from: usize, p: &str) -> (r: Option<usize>)
    requires
        from <= s.len(),
    ensures
        match r {
            Some(i) => first_at(s@, from as int, p@) == Some(i as int) && from <= i && i + p@.len() <= s.len(),
            None => first_at(s@, from as int, p@) is None,
        },
{
    let mut i: usize = from;
    loop
        invariant
            from <= i <= s.len(),
            first_at(s@, from as int, p@) == first_at(s@, i as int, p@),
        decreases s.len() - i,
    {
        if at(s, i, p) {
            return Some(i);
        }
        if i == s.len() {
            assert(first_at(s@, i + 1, p@) is None);
            return None;
        }
        i += 1;
    }
}

/// Whether `p` stands anywhere in `s`.
pub open spec fn has(s: Seq<char>, p: Seq<char>) -> bool {
    first_at(s, 0, p) is Some
}

/// Whether `p` stands anywhere in `s`.
pub fn contains(s: &str, p: &str) -> (r: bool)
    ensures
        r == has(s@, p@),
{
    let c = chars_of(s);
    find(c.as_slice(), 0, p).is_some()
}

/// Whether a character is one of the 128 of ASCII.
pub open spec fn is_ascii(c: char) -> bool {
    c <= '\u{7f}'
}

/// What `char::is_alphabetic` says of a character beyond ASCII.
pub uninterp spec fn alphabetic_beyond_ascii(c: char) -> bool;

/// What `char::is_numeric` says of a character beyond ASCII.
pub uninterp spec fn numeric_beyond_ascii(c: char) -> bool;

/// A letter: in ASCII those of the English alphabet.
pub open spec fn alphabetic(c: char) -> bool {
    if is_ascii(c) {
        'a' <= c <= 'z' || 'A' <= c <= 'Z'
    } else {
        alphabetic_beyond_ascii(c)
    }
}

/// A number: in ASCII the decimal digits.
pub open spec fn numeric(c: char) -> bool {
    if is_ascii(c) {
        '0' <= c <= '9'
    } else {
        numeric_beyond_ascii(c)
    }
}

/// The characters that Unicode lists as White_Space.
pub open spec fn whitespace(c: char) -> bool {
    ||| '\u{9}' <= c <= '\u{d}'
    ||| c == ' '
    ||| c == '\u{85}'
    ||| c == '\u{a0}'
    ||| c == '\u{1680}'
    ||| '\u{2000}' <= c <= '\u{200a}'
    ||| c == '\u{2028}'
    ||| c == '\u{2029}'
    ||| c == '\u{202f}'
    ||| c == '\u{205f}'
    ||| c == '\u{3000}'
}

/// `char::is_alphabetic`: whether the character has the Unicode property
/// Alphabetic, which depends on the character alone. In ASCII the letters have it, and
/// nothing else; which characters beyond ASCII have it is not said here.
pub assume_specification[ char::is_alphabetic ](c: char) -> (r: bool)
    ensures
        r == (if is_ascii(c) {
            'a' <= c <= 'z' || 'A' <= c <= 'Z'
        } else {
            alphabetic_beyond_ascii(c)
        }),
;

/// `char::is_numeric`: whether the character is in one of the Unicode number
/// categories, which depends on the character alone. In ASCII the digits are, and
/// nothing else; which characters beyond ASCII are is not said here.
pub assume_specification[ char::is_numeric ](c: char) -> (r: bool)
    ensures
        r == (if is_ascii(c) {
            '0' <= c <= '9'
        } else {
            numeric_beyond_ascii(c)
        }),
;

/// `char::is_whitespace`: whether the character has the Unicode property White_Space,
/// which the Unicode Character Database gives to the characters listed.
pub assume_specification[ char::is_whitespace ](c: char) -> (r: bool)
    ensures
        r == whitespace(c),
;

/// Whether a text is all ASCII.
pub open spec fn all_ascii(s: Seq<char>) -> bool {
    forall|i: int| 0 <= i < s.len() ==> is_ascii(#[trigger] s[i])
}

/// An ASCII character in lower case.
pub open spec fn lower_ascii(c: char) -> char {
    if 'A' <= c <= 'Z' {
        (c as u32 + 32) as char
    } else {
        c
    }
}

/// An ASCII character in upper case.
pub open spec fn upper_ascii(c: char) -> char {
    if 'a' <= c <= 'z' {
        (c as u32 - 32) as char
    } else {
        c
    }
}

/// What `str::to_lowercase` makes of a text that is not all ASCII.
pub uninterp spec fn lowercase_beyond_ascii(s: Seq<char>) -> Seq<char>;

/// What `str::to_uppercase` makes of a text that is not all ASCII.
pub uninterp spec fn uppercase_beyond_ascii(s: Seq<char>) -> Seq<char>;

/// A text in lower case: in ASCII, letter by letter.
pub open spec fn lowercase(s: Seq<char>) -> Seq<char> {
    if all_ascii(s) {
        Seq::new(s.len(), |i: int| lower_ascii(s[i]))
    } else {
        lowercase_beyond_ascii(s)
    }
}

/// A text in upper case: in ASCII, letter by letter.
pub open spec fn uppercase(s: Seq<char>) -> Seq<char> {
    if all_ascii(s) {
        Seq::new(s.len(), |i: int| upper_ascii(s[i]))
    } else {
        uppercase_beyond_ascii(s)
    }
}

/// `str::to_lowercase`: the lower-case equivalent of a text, which depends on
/// the text alone. Of an ASCII text every letter is put in lower case and nothing else is
/// changed; what becomes of other texts is not said here.
pub assume_specification[ str::to_lowercase ](s: &str) -> (r: String)
    ensures
        all_ascii(s@) ==> r@ == Seq::new(s@.len(), |i: int| lower_ascii(s@[i])),
        !all_ascii(s@) ==> r@ == lowercase_beyond_ascii(s@),
;

/// `str::to_uppercase`: the upper-case equivalent of a text, which depends on
/// the text alone. Of an ASCII text every letter is put in upper case and nothing else is
/// changed; what becomes of other texts is not said here.
pub assume_specification[ str::to_uppercase ](s: &str) -> (r: String)
    ensures
        all_ascii(s@) ==> r@ == Seq::new(s@.len(), |i: int| upper_ascii(s@[i])),
        !all_ascii(s@) ==> r@ == uppercase_beyond_ascii(s@),
;

/// What is stripped from the ends of a text.
#[derive(PartialEq, Eq, Clone, Copy, Structural)]
pub enum Blank {
    /// Whitespace.
    Space,
    /// Dashes.
    Dash,
    /// Slashes.
    Slash,
    /// What stands between the parts of a path: slashes and backslashes.
    Separator,
}

pub open spec fn is_blank(c: char, k: Blank) -> bool {
    match k {
        Blank::Space => whitespace(c),
        Blank::Dash => c == '-',
        Blank::Slash => c == '/',
        Blank::Separator => c == '/' || c == '\\',
    }
}

/// The first index from `i` on that is not blank.
pub open spec fn after_blank(s: Seq<char>, i: int, k: Blank) -> int
    decreases s.len() - i,
{
    if 0 <= i < s.len() && is_blank(s[i], k) {
        after_blank(s, i + 1, k)
    } else {
        i
    }
}

/// One past the last index before `j` that is not blank.
pub open spec fn before_blank(s: Seq<char>, j: int, k: Blank) -> int
    decreases j,
{
    if 0 < j <= s.len() && is_blank(s[j - 1], k) {
        before_blank(s, j - 1, k)
    } else {
        j
    }
}

/// The text without what is blank at its start.
pub open spec fn strip_start(s: Seq<char>, k: Blank) -> Seq<char> {
    s.subrange(after_blank(s, 0, k), s.len() as int)
}

/// The text without what is blank at its end.
pub open spec fn strip_end(s: Seq<char>, k: Blank) -> Seq<char> {
    s.subrange(0, before_blank(s, s.len() as int, k))
}

/// The text without whitespace around it.
pub open spec fn trimmed(s: Seq<char>) -> Seq<char> {
    strip_end(strip_start(s, Blank::Space), Blank::Space)
}

fn blank(c: char, k: Blank) -> (r: bool)
    ensures
        r == is_blank(c, k),
{
    match k {
        Blank::Space => c.is_whitespace(),
        Blank::Dash => c == '-',
        Blank::Slash => c == '/',
        Blank::Separator => c == '/' || c == '\\',
    }
}

/// The text without what is blank at its start.
pub fn without_start(s: &str, k: Blank) -> (r: String)
    ensures
        r@ == strip_start(s@, k),
{
    let c = chars_of(s);
    let mut i: usize = 0;
    while i < c.len() && blank(c[i], k)
        invariant
            i <= c@.len(),
            after_blank(c@, 0, k) == after_blank(c@, i as int, k),
        decreases c.len() - i,
    {
        i += 1;
    }
    substring(c.as_slice(), i, c.len())
}

/// The text without what is blank at its end.
pub fn without_end(s: &str, k: Blank) -> (r: String)
    ensures
        r@ == strip_end(s@, k),
{
    let c = chars_of(s);
    let mut j: usize = c.len();
    while j > 0 && blank(c[j - 1], k)
        invariant
            j <= c@.len(),
            before_blank(c@, c@.len() as int, k) == before_blank(c@, j as int, k),
        decreases j,
    {
        j -= 1;
    }
    substring(c.as_slice(), 0, j)
}

/// The text without whitespace around it.
pub fn trim(s: &str) -> (r: String)
    ensures
        r@ == trimmed(s@),
{
    let t = without_start(s, Blank::Space);
    without_end(t.as_str(), Blank::Space)
}

/// The first word: the characters up to the next whitespace, after any at the
/// start.
pub open spec fn first_word(s: Seq<char>) -> Seq<char> {
    let t = strip_start(s, Blank::Space);
    t.subrange(0, word_end(t, 0))
}

/// The first index from `i` on that is whitespace.
pub open spec fn word_end(s: Seq<char>, i: int) -> int
    decreases s.len() - i,
{
    if 0 <= i < s.len() && !whitespace(s[i]) {
        word_end(s, i + 1)
    } else {
        i
    }
}

/// The first word of a text.
pub fn word(s: &str) -> (r: String)
    ensures
        r@ == first_word(s@),
{
    let t = without_start(s, Blank::Space);
    let c = chars_of(t.as_str());
    let mut i: usize = 0;
    while i < c.len() && !c[i].is_whitespace()
        invariant
            i <= c@.len(),
            word_end(c@, 0) == word_end(c@, i as int),
        decreases c.len() - i,
    {
        i += 1;
    }
    substring(c.as_slice(), 0, i)
}

/// What the `Debug` form of a text is: in quotes, with escapes.
pub uninterp spec fn debug_form(s: Seq<char>) -> Seq<char>;

/// The `Debug` formatting of `str`, which depends on the text alone.
#[verifier::external_body]
pub(crate) fn debug_text(s: &str) -> (r: String)
    ensures
        r@ == debug_form(s@),
{
    format!("{s:?}")
}

/// The decimal digit `d` as a character.
pub open spec fn digit(d: nat) -> char {
    (d + 48) as char
}

/// A number written in decimal, without leading zeros.
pub open spec fn decimal_of(n: nat) -> Seq<char>
    decreases n,
{
    if n < 10 {
        seq![digit(n)]
    } else {
        decimal_of(n / 10).push(digit(n % 10))
    }
}

/// A number written in decimal.
pub fn decimal(n: u64) -> (out: String)
    ensures
        out@ == decimal_of(n as nat),
    decreases n,
{
    let d: u8 = (n % 10) as u8;
    if n < 10 {
        let mut out = String::new();
        out.push((d + 48) as char);
        assert(out@ =~= decimal_of(n as nat));
        out
    } else {
        let mut out = decimal(n / 10);
        out.push((d + 48) as char);
        out
    }
}

/// A signed number written in decimal.
pub open spec fn signed_of(n: int) -> Seq<char> {
    if n < 0 {
        seq!['-'] + decimal_of((-n) as nat)
    } else {
        decimal_of(n as nat)
    }
}

/// A signed number written in decimal.
pub fn signed(n: i64) -> (out: String)
    ensures
        out@ == signed_of(n as int),
{
    if n < 0 {
        let m: u64 = if n == i64::MIN {
            9223372036854775808
        } else {
            (-n) as u64
        };
        let mut out = String::new();
        out.push('-');
        let digits = decimal(m);
        out.append(digits.as_str());
        assert(out@ =~= signed_of(n as int));
        out
    } else {
        decimal(n as u64)
    }
}

/// The bytes of two texts one after the other.
pub proof fn lemma_encode_concat(a: Seq<char>, b: Seq<char>)
    ensures
        encode_utf8(a + b) == encode_utf8(a) + encode_utf8(b),
    decreases a.len(),
{
    if a.len() == 0 {
        assert(a + b =~= b);
        assert(encode_utf8(a) + encode_utf8(b) =~= encode_utf8(b));
    } else {
        lemma_encode_concat(a.drop_first(), b);
        assert((a + b).drop_first() =~= a.drop_first() + b);
        assert(encode_utf8(a + b) =~= encode_utf8(a) + encode_utf8(b));
    }
}

/// The rest of a valid text after some whole characters is valid.
pub proof fn lemma_rest_valid(text: Seq<char>, rest: Seq<u8>)
    requires
        valid_utf8(encode_utf8(text) + rest),
    ensures
        valid_utf8(rest),
{
    let all = encode_utf8(text) + rest;
    let n = encode_utf8(text).len() as int;
    encode_utf8_valid_utf8(text);
    assert(all.subrange(0, n) =~= encode_utf8(text));
    assert(all.subrange(n, all.len() as int) =~= rest);
    if !valid_utf8(rest) {
        partial_valid_partial_invalid_utf8(all, n);
    }
}

/// The number that decimal digits write.
pub open spec fn decimal_value(s: Seq<char>) -> Option<nat>
    decreases s.len(),
{
    if s.len() == 0 {
        Some(0)
    } else {
        match decimal_value(s.drop_last()) {
            Some(n) if '0' <= s.last() <= '9' => Some(10 * n + (s.last() as nat - 48) as nat),
            _ => None,
        }
    }
}

/// The number up to `max` that a text writes: digits, perhaps after a plus sign.
pub open spec fn unsigned_of(s: Seq<char>, max: nat) -> Option<nat> {
    let digits = if s.len() > 0 && s[0] == '+' {
        s.drop_first()
    } else {
        s
    };
    match decimal_value(digits) {
        Some(n) if digits.len() > 0 && n <= max => Some(n),
        _ => None,
    }
}

proof fn lemma_decimal_grows(s: Seq<char>, k: int, max: nat)
    requires
        0 <= k <= s.len(),
        decimal_value(s.subrange(0, k)) is None || decimal_value(s.subrange(0, k))->0 > max,
    ensures
        decimal_value(s) is None || decimal_value(s)->0 > max,
    decreases s.len() - k,
{
    if k < s.len() {
        assert(s.subrange(0, k + 1).drop_last() =~= s.subrange(0, k));
        lemma_decimal_grows(s, k + 1, max);
    } else {
        assert(s.subrange(0, k) =~= s);
    }
}

/// The number up to `max` that a text writes.
pub fn parse_unsigned(s: &str, max: u64) -> (r: Option<u64>)
    ensures
        match r {
            Some(n) => unsigned_of(s@, max as nat) == Some(n as nat),
            None => unsigned_of(s@, max as nat) is None,
        },
{
    let c = chars_of(s);
    let from: usize = if c.len() > 0 && c[0] == '+' {
        1
    } else {
        0
    };
    let ghost digits = s@.subrange(from as int, s@.len() as int);
    assert(digits =~= (if s@.len() > 0 && s@[0] == '+' {
        s@.drop_first()
    } else {
        s@
    }));
    if from == c.len() {
        return None;
    }
    let mut value: u64 = 0;
    let mut i: usize = from;
    assert(digits.subrange(0, 0) =~= Seq::<char>::empty());
    while i < c.len()
        invariant
            from <= i <= c@.len(),
            c@ == s@,
            digits == s@.subrange(from as int, s@.len() as int),
            digits == (if s@.len() > 0 && s@[0] == '+' {
                s@.drop_first()
            } else {
                s@
            }),
            decimal_value(digits.subrange(0, i - from)) == Some(value as nat),
            value <= max,
        decreases c.len() - i,
    {
        let ch = c[i];
        let ghost prefix = digits.subrange(0, i - from + 1);
        assert(prefix.drop_last() =~= digits.subrange(0, i - from));
        assert(prefix.last() == ch);
        if !('0' <= ch && ch <= '9') {
            proof {
                lemma_decimal_grows(digits, i - from + 1, max as nat);
            }
            return None;
        }
        let d: u64 = ch as u64 - 48;
        let next: u128 = value as u128 * 10 + d as u128;
        if next > max as u128 {
            proof {
                lemma_decimal_grows(digits, i - from + 1, max as nat);
            }
            return None;
        }
        value = next as u64;
        i += 1;
    }
    assert(digits.subrange(0, i - from) =~= digits);
    Some(value)
}

/// A number written in decimal reads back as itself, and is made of digits.
pub proof fn law_decimal_reads_back(n: nat)
    ensures
        decimal_value(decimal_of(n)) == Some(n),
        decimal_of(n).len() > 0,
        forall|k: int| 0 <= k < decimal_of(n).len() ==> '0' <= #[trigger] decimal_of(n)[k] <= '9',
    decreases n,
{
    let s = decimal_of(n);
    if n < 10 {
        assert(s.drop_last() =~= Seq::<char>::empty());
        assert(decimal_value(s.drop_last()) == Some(0nat));
        assert(s.last() == digit(n));
    } else {
        law_decimal_reads_back(n / 10);
        assert(s.drop_last() =~= decimal_of(n / 10));
        assert(s.last() == digit(n % 10));
        assert forall|k: int| 0 <= k < s.len() implies '0' <= #[trigger] s[k] <= '9' by {
            if k < s.len() - 1 {
                assert(s[k] == decimal_of(n / 10)[k]);
            }
        }
    }
}

/// How often a character stands in the first `n` of a text.
pub open spec fn count_of(s: Seq<char>, c: char, n: nat) -> nat
    decreases n,
{
    if n == 0 || n > s.len() {
        0
    } else if s[n - 1] == c {
        count_of(s, c, (n - 1) as nat) + 1
    } else {
        count_of(s, c, (n - 1) as nat)
    }
}

/// How often a character stands in a text.
pub fn count(s: &str, c: char) -> (r: usize)
    ensures
        r == count_of(s@, c, s@.len()),
{
    let v = chars_of(s);
    let mut n: usize = 0;
    let mut i: usize = 0;
    while i < v.len()
        invariant
            i <= v@.len(),
            n <= i,
            n == count_of(v@, c, i as nat),
        decreases v.len() - i,
    {
        if v[i] == c {
            n += 1;
        }
        i += 1;
    }
    n
}

/// Whether a text starts with another.
pub fn starts_with(s: &str, p: &str) -> (r: bool)
    ensures
        r == is_at(s@, 0, p@),
{
    let c = chars_of(s);
    at(c.as_slice(), 0, p)
}

/// A text cut at the first place where another stands: what is before it, and what is
/// behind.
pub open spec fn split_once_of(s: Seq<char>, p: Seq<char>) -> Option<(Seq<char>, Seq<char>)> {
    match first_at(s, 0, p) {
        Some(i) => Some((s.subrange(0, i), s.subrange(i + p.len() as int, s.len() as int))),
        None => None,
    }
}

/// A text cut at the first place where another stands.
pub fn split_once(s: &str, p: &str) -> (r: Option<(String, String)>)
    ensures
        match r {
            Some(t) => split_once_of(s@, p@) == Some((t.0@, t.1@)),
            None => split_once_of(s@, p@) is None,
        },
{
    let c = chars_of(s);
    match find(c.as_slice(), 0, p) {
        None => None,
        Some(i) => {
            proof {
                lemma_first_at(s@, 0, p@);
            }
            let n: usize = p.unicode_len();
            Some((substring(c.as_slice(), 0, i), substring(c.as_slice(), i + n, c.len())))
        },
    }
}

/// Where the last part of a text begins, before `j`: behind the last separator.
pub open spec fn last_start(s: Seq<char>, j: int, k: Blank) -> int
    decreases j,
{
    if j <= 0 || j > s.len() {
        0
    } else if is_blank(s[j - 1], k) {
        j
    } else {
        last_start(s, j - 1, k)
    }
}

/// What is behind the last separator of a text.
pub open spec fn last_part_of(s: Seq<char>, k: Blank) -> Seq<char> {
    s.subrange(last_start(s, s.len() as int, k), s.len() as int)
}

/// What is behind the last separator of a text.
pub fn last_part(s: &str, k: Blank) -> (r: String)
    ensures
        r@ == last_part_of(s@, k),
{
    let c = chars_of(s);
    let mut j: usize = c.len();
    while j > 0 && !blank(c[j - 1], k)
        invariant
            j <= c@.len(),
            last_start(c@, c@.len() as int, k) == last_start(c@, j as int, k),
        decreases j,
    {
        j -= 1;
    }
    substring(c.as_slice(), j, c.len())
}

} // verus!
