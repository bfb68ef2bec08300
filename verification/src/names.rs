//! Property names as the automaton reads them: quoted and escaped, so that none is cut short
//! by another.

use vstd::prelude::*;
use vstd::utf8::{encode_scalar, encode_utf8, encode_utf8_decode_utf8, is_ascii_chars, is_ascii_chars_encode_utf8};
use crate::accept::clear_keys;
use crate::automaton::{key_options, Property, BACKSLASH, QUOTE};
use crate::document::{is_string, is_text, lemma_text_joins};
use crate::json::{escaped, escaped_all, hex_digit, quoted};
use crate::progress::{goes_on, tells_apart};
use crate::text::lemma_encode_concat;

verus! {

/// Bytes that need no escape are text.
proof fn lemma_plain_text(v: Seq<u8>)
    requires
        forall|i: int| 0 <= i < v.len() ==> (#[trigger] v[i]) >= 32 && v[i] != QUOTE && v[i] != BACKSLASH,
    ensures
        is_text(v),
    decreases v.len(),
{
    if v.len() > 0 {
        let w = v.skip(1);
        assert forall|i: int| 0 <= i < w.len() implies (#[trigger] w[i]) >= 32 && w[i] != QUOTE && w[i] != BACKSLASH by {
            assert(w[i] == v[i + 1]);
        }
        lemma_plain_text(w);
        assert(v[0] >= 32 && v[0] != QUOTE && v[0] != BACKSLASH);
    }
}

proof fn lemma_high_bit(x: u8)
    ensures
        0x80u8 | x >= 128,
        0xC0u8 | x >= 128,
        0xE0u8 | x >= 128,
        0xF0u8 | x >= 128,
{
    assert(0x80u8 | x >= 128 && 0xC0u8 | x >= 128 && 0xE0u8 | x >= 128 && 0xF0u8 | x >= 128) by (bit_vector);
}

/// The bytes of a character beyond ASCII are none of JSON's own.
proof fn lemma_wide_character(c: char)
    requires
        c as int >= 128,
    ensures
        forall|i: int| 0 <= i < encode_utf8(seq![c]).len() ==> (#[trigger] encode_utf8(seq![c])[i]) >= 128,
{
    let v = c as u32;
    assert(seq![c].drop_first() =~= Seq::<char>::empty());
    assert(encode_utf8(Seq::<char>::empty()) =~= Seq::<u8>::empty());
    assert(encode_utf8(seq![c]) =~= encode_scalar(v));
    lemma_high_bit(((v >> 6) & 0x1F) as u8);
    lemma_high_bit(((v >> 12) & 0x0F) as u8);
    lemma_high_bit(((v >> 18) & 0x7) as u8);
    lemma_high_bit((v & 0x3F) as u8);
    lemma_high_bit(((v >> 6) & 0x3F) as u8);
    lemma_high_bit(((v >> 12) & 0x3F) as u8);
}

/// A character as it stands inside a string is text.
proof fn lemma_escaped_text(c: char)
    ensures
        is_text(encode_utf8(escaped(c))),
{
    let e = escaped(c);
    let b = encode_utf8(e);
    if c as int >= 128 {
        lemma_wide_character(c);
        lemma_plain_text(b);
    } else {
        assert(is_ascii_chars(e));
        is_ascii_chars_encode_utf8(e);
        if e.len() == 1 {
            assert(b[0] == e[0] as u8);
            lemma_plain_text(b);
        } else if e.len() == 2 {
            assert(b[0] == e[0] as u8 && b[1] == e[1] as u8);
            assert(is_text(b.skip(2)));
        } else {
            assert(b[0] == e[0] as u8 && b[1] == e[1] as u8 && b[2] == e[2] as u8);
            assert(b[3] == e[3] as u8 && b[4] == e[4] as u8 && b[5] == e[5] as u8);
            assert(is_text(b.skip(6)));
        }
    }
}

proof fn lemma_all_escaped_text(s: Seq<char>)
    ensures
        is_text(encode_utf8(escaped_all(s))),
    decreases s.len(),
{
    if s.len() > 0 {
        lemma_all_escaped_text(s.drop_last());
        lemma_escaped_text(s.last());
        lemma_encode_concat(escaped_all(s.drop_last()), escaped(s.last()));
        lemma_text_joins(encode_utf8(escaped_all(s.drop_last())), encode_utf8(escaped(s.last())));
    }
}

/// A quoted text is a string.
pub(crate) proof fn lemma_quoted_is_string(s: Seq<char>)
    ensures
        is_string(encode_utf8(quoted(s))),
{
    let one = seq!['"'];
    let mid = escaped_all(s);
    lemma_all_escaped_text(s);
    lemma_encode_concat(one, mid);
    lemma_encode_concat(one + mid, one);
    assert(is_ascii_chars(one));
    is_ascii_chars_encode_utf8(one);
    assert(encode_utf8(one)[0] == one[0] as u8);
    assert(encode_utf8(one) =~= seq![QUOTE]);
    let b = encode_utf8(quoted(s));
    assert(b =~= seq![QUOTE] + encode_utf8(mid) + seq![QUOTE]);
    assert(b.subrange(1, b.len() - 1) =~= encode_utf8(mid));
}

/// A quote never stands inside text where text can end.
proof fn lemma_text_stops(p: Seq<u8>, q: Seq<u8>)
    requires
        is_text(p),
        is_text(q),
        q.len() > p.len(),
        q.take(p.len() as int) == p,
    ensures
        q[p.len() as int] != QUOTE,
    decreases p.len(),
{
    if p.len() == 0 {
    } else {
        assert(p[0] == q.take(p.len() as int)[0]);
        let n: int = if p[0] == BACKSLASH {
            assert(p[1] == q.take(p.len() as int)[1]);
            if p.len() >= 6 && p[1] == 117 {
                6
            } else {
                2
            }
        } else {
            1
        };
        assert(q.skip(n).take(p.len() - n) =~= q.take(p.len() as int).skip(n));
        assert(is_text(p.skip(n)) && is_text(q.skip(n)));
        lemma_text_stops(p.skip(n), q.skip(n));
        assert(q.skip(n)[p.len() - n] == q[p.len() as int]);
    }
}

/// No string begins another that is longer.
pub(crate) proof fn lemma_strings_stop(a: Seq<u8>, b: Seq<u8>)
    requires
        is_string(a),
        is_string(b),
        b.len() > a.len(),
    ensures
        b.take(a.len() as int) != a,
{
    let p = a.subrange(1, a.len() - 1);
    let q = b.subrange(1, b.len() - 1);
    if b.take(a.len() as int) == a {
        assert(q.take(p.len() as int) =~= b.take(a.len() as int).subrange(1, a.len() - 1));
        lemma_text_stops(p, q);
        assert(q[p.len() as int] == b[a.len() - 1]);
        assert(b.take(a.len() as int)[a.len() - 1] == QUOTE);
    }
}

/// The first character's escape comes first.
proof fn lemma_escaped_front(s: Seq<char>)
    requires
        s.len() > 0,
    ensures
        escaped_all(s) == escaped(s[0]) + escaped_all(s.skip(1)),
    decreases s.len(),
{
    if s.len() == 1 {
        assert(s.drop_last() =~= Seq::<char>::empty());
        assert(s.skip(1) =~= Seq::<char>::empty());
        assert(escaped_all(Seq::<char>::empty()) =~= Seq::<char>::empty());
        assert(escaped_all(s) =~= escaped(s[0]) + escaped_all(s.skip(1)));
    } else {
        lemma_escaped_front(s.drop_last());
        assert(s.drop_last().skip(1) =~= s.skip(1).drop_last());
        assert(escaped_all(s) =~= escaped(s[0]) + escaped_all(s.skip(1)));
    }
}

/// What is escaped can be told from how it begins.
proof fn lemma_escape_decides(c: char, d: char, x: Seq<char>, y: Seq<char>)
    requires
        escaped(c) + x == escaped(d) + y,
    ensures
        c == d,
        x == y,
{
    let l = escaped(c) + x;
    let r = escaped(d) + y;
    assert(l[0] == escaped(c)[0] && r[0] == escaped(d)[0]);
    if escaped(c).len() > 1 && escaped(d).len() > 1 {
        assert(l[1] == escaped(c)[1] && r[1] == escaped(d)[1]);
        if escaped(c).len() == 6 && escaped(d).len() == 6 {
            assert(l[4] == escaped(c)[4] && r[4] == escaped(d)[4]);
            assert(l[5] == escaped(c)[5] && r[5] == escaped(d)[5]);
            assert(hex_digit(c as int / 16) == hex_digit(d as int / 16));
            assert(hex_digit(c as int % 16) == hex_digit(d as int % 16));
        }
    }
    assert(c == d);
    assert(x =~= l.skip(escaped(c).len() as int));
    assert(y =~= r.skip(escaped(d).len() as int));
}

/// Different texts are escaped differently.
proof fn lemma_escaped_apart(a: Seq<char>, b: Seq<char>)
    requires
        escaped_all(a) == escaped_all(b),
    ensures
        a == b,
    decreases a.len(),
{
    if a.len() > 0 {
        lemma_escaped_front(a);
    }
    if b.len() > 0 {
        lemma_escaped_front(b);
    }
    if a.len() > 0 && b.len() > 0 {
        lemma_escape_decides(a[0], b[0], escaped_all(a.skip(1)), escaped_all(b.skip(1)));
        lemma_escaped_apart(a.skip(1), b.skip(1));
        assert(a =~= seq![a[0]] + a.skip(1));
        assert(b =~= seq![b[0]] + b.skip(1));
    } else {
        assert(a =~= b);
    }
}

proof fn lemma_quoted_apart(a: Seq<char>, b: Seq<char>)
    requires
        encode_utf8(quoted(a)) == encode_utf8(quoted(b)),
    ensures
        a == b,
{
    encode_utf8_decode_utf8(quoted(a));
    encode_utf8_decode_utf8(quoted(b));
    let p = quoted(a);
    let q = quoted(b);
    assert(escaped_all(a) =~= p.subrange(1, p.len() - 1));
    assert(escaped_all(b) =~= q.subrange(1, q.len() - 1));
    lemma_escaped_apart(a, b);
}

/// Names can be told apart: properties whose keys are different names, quoted, are never cut
/// short by one another, and each begins with a quote.
pub proof fn law_names_are_told_apart(names: Seq<Seq<char>>, props: Seq<Property>)
    requires
        props.len() == names.len(),
        forall|i: int| 0 <= i < props.len() ==> (#[trigger] props[i]).key == encode_utf8(quoted(names[i])),
        forall|i: int, j: int| 0 <= i < j < names.len() ==> names[i] != names[j],
    ensures
        clear_keys(key_options(props)),
        tells_apart(key_options(props)),
        forall|i: int| 0 <= i < props.len() ==> (#[trigger] props[i]).key.len() > 0 && props[i].key[0] == QUOTE,
{
    let keys = key_options(props);
    assert forall|i: int| 0 <= i < keys.len() implies is_string(#[trigger] keys[i]) by {
        assert(keys[i] == props[i].key);
        lemma_quoted_is_string(names[i]);
    }
    assert forall|i: int, j: int|
        #![trigger keys[i], keys[j]]
        0 <= i < keys.len() && 0 <= j < keys.len() && keys[j].len() > keys[i].len() implies keys[j].take(
        keys[i].len() as int,
    ) != keys[i] by {
        lemma_strings_stop(keys[i], keys[j]);
    }
    assert forall|i: int, j: int| 0 <= i < j < keys.len() implies keys[i] != keys[j] by {
        if keys[i] == keys[j] {
            assert(props[i].key == keys[i] && props[j].key == keys[j]);
            lemma_quoted_apart(names[i], names[j]);
        }
    }
    assert forall|i: int, j: int| 0 <= i < keys.len() && 0 <= j < keys.len() implies !goes_on(
        #[trigger] keys[i],
        #[trigger] keys[j],
    ) by {
        if keys[j].len() > keys[i].len() {
            assert(keys[j].take(keys[i].len() as int) != keys[i]);
        }
    }
    assert forall|i: int| 0 <= i < props.len() implies (#[trigger] props[i]).key.len() > 0 && props[i].key[0] == QUOTE by {
        assert(is_string(keys[i]));
        assert(keys[i] == props[i].key);
    }
}

} // verus!
