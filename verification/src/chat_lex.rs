//! Cutting a chat template into text, outputs and tags.

use vstd::prelude::*;
use crate::text::{Blank, chars_of, find, first_at, lemma_first_at, strip_end, strip_start, substring, trim, trimmed, without_end, without_start};

verus! {

/// A raw template piece, with the whitespace-control marks it carried.
#[derive(Debug)]
pub enum Piece {
    Text(String),
    /// `{{ ... }}`
    Out(String, bool, bool),
    /// `{% ... %}`
    Tag(String, bool, bool),
}

/// What a [`Piece`] holds.
pub enum PieceV {
    Text(Seq<char>),
    Out(Seq<char>, bool, bool),
    Tag(Seq<char>, bool, bool),
}

impl View for Piece {
    type V = PieceV;

    open spec fn view(&self) -> PieceV {
        match *self {
            Piece::Text(t) => PieceV::Text(t@),
            Piece::Out(s, l, r) => PieceV::Out(s@, l, r),
            Piece::Tag(s, l, r) => PieceV::Tag(s@, l, r),
        }
    }
}

pub open spec fn pieces_view(v: Seq<Piece>) -> Seq<PieceV> {
    Seq::new(v.len(), |i: int| v[i]@)
}

impl PieceV {
    /// Whether the piece strips the whitespace before it.
    pub open spec fn strips_left(self) -> bool {
        match self {
            PieceV::Text(_) => false,
            PieceV::Out(_, l, _) => l,
            PieceV::Tag(_, l, _) => l,
        }
    }

    /// Whether the piece strips the whitespace after it.
    pub open spec fn strips_right(self) -> bool {
        match self {
            PieceV::Text(_) => false,
            PieceV::Out(_, _, r) => r,
            PieceV::Tag(_, _, r) => r,
        }
    }
}

/// Whether a piece other than text opens at `i`.
pub open spec fn opens(s: Seq<char>, i: int) -> bool {
    0 <= i && i + 1 < s.len() && s[i] == '{' && (s[i + 1] == '{' || s[i + 1] == '%' || s[i + 1] == '#')
}

/// What closes a piece that opened with `{` and `kind`.
pub open spec fn closer(kind: char) -> Seq<char> {
    if kind == '{' {
        "}}"@
    } else if kind == '%' {
        "%}"@
    } else {
        "#}"@
    }
}

/// Every piece closes with two characters.
pub proof fn lemma_closer(kind: char)
    ensures
        closer(kind).len() == 2,
{
    reveal_strlit("}}");
    reveal_strlit("%}");
    reveal_strlit("#}");
}

/// The text so far, as a piece, where there is any.
pub open spec fn flushed(text: Seq<char>) -> Seq<PieceV> {
    if text.len() == 0 {
        Seq::empty()
    } else {
        seq![PieceV::Text(text)]
    }
}

/// The piece between its delimiters: a dash at either end strips the whitespace
/// on that side.
pub open spec fn piece_of(raw: Seq<char>, kind: char) -> PieceV {
    let left = raw.len() > 0 && raw[0] == '-';
    let right = raw.len() > 0 && raw.last() == '-';
    let body = trimmed(strip_end(strip_start(raw, Blank::Dash), Blank::Dash));
    if kind == '{' {
        PieceV::Out(body, left, right)
    } else {
        PieceV::Tag(body, left, right)
    }
}

/// The pieces of a template from `i` on, after the text `text`. A comment
/// contributes nothing.
pub open spec fn cut(s: Seq<char>, i: int, text: Seq<char>) -> Result<Seq<PieceV>, Seq<char>>
    decreases s.len() - i,
{
    if i < 0 || i >= s.len() {
        Ok(flushed(text))
    } else if opens(s, i) {
        let kind = s[i + 1];
        proof {
            lemma_first_at(s, i + 2, closer(kind));
            lemma_closer(kind);
        }
        match first_at(s, i + 2, closer(kind)) {
            None => Err(seq!['u', 'n', 'c', 'l', 'o', 's', 'e', 'd', ' ', '{', kind]),
            Some(end) => if kind == '#' {
                cut(s, end + 2, text)
            } else {
                match cut(s, end + 2, Seq::empty()) {
                    Err(e) => Err(e),
                    Ok(more) => Ok(flushed(text) + seq![piece_of(s.subrange(i + 2, end), kind)] + more),
                }
            },
        }
    } else {
        cut(s, i + 1, text.push(s[i]))
    }
}

/// A piece with whitespace control applied: text loses the whitespace on the
/// side where its neighbour strips it.
pub open spec fn controlled_piece(p: Seq<PieceV>, k: int) -> PieceV {
    match p[k] {
        PieceV::Text(t) => {
            let ended = if k + 1 < p.len() && p[k + 1].strips_left() {
                strip_end(t, Blank::Space)
            } else {
                t
            };
            PieceV::Text(
                if k > 0 && p[k - 1].strips_right() {
                    strip_start(ended, Blank::Space)
                } else {
                    ended
                },
            )
        },
        other => other,
    }
}

pub open spec fn controlled(p: Seq<PieceV>) -> Seq<PieceV> {
    Seq::new(p.len(), |k: int| controlled_piece(p, k))
}

/// The pieces of a template.
pub open spec fn lexed(s: Seq<char>) -> Result<Seq<PieceV>, Seq<char>> {
    match cut(s, 0, Seq::empty()) {
        Ok(p) => Ok(controlled(p)),
        Err(e) => Err(e),
    }
}

fn marks(p: &Piece) -> (r: (bool, bool))
    ensures
        r == (p@.strips_left(), p@.strips_right()),
{
    match p {
        Piece::Text(_) => (false, false),
        Piece::Out(_, l, r) => (*l, *r),
        Piece::Tag(_, l, r) => (*l, *r),
    }
}

/// The piece between its delimiters.
fn piece_from(c: &Vec<char>, from: usize, end: usize, kind: char) -> (p: Piece)
    requires
        from <= end <= c@.len(),
    ensures
        p@ == piece_of(c@.subrange(from as int, end as int), kind),
{
    let raw = substring(c.as_slice(), from, end);
    assert(raw@ == c@.subrange(from as int, end as int));
    // A dash at either end strips the whitespace on that side.
    let left = from < end && c[from] == '-';
    let right = from < end && c[end - 1] == '-';
    let dashless = without_end(without_start(raw.as_str(), Blank::Dash).as_str(), Blank::Dash);
    let body = trim(dashless.as_str());
    if kind == '{' {
        Piece::Out(body, left, right)
    } else {
        Piece::Tag(body, left, right)
    }
}

fn flush(out: &mut Vec<Piece>, text: String)
    ensures
        pieces_view(final(out)@) == pieces_view(old(out)@) + flushed(text@),
{
    let ghost before = pieces_view(out@);
    if !text.as_str().is_empty() {
        out.push(Piece::Text(text));
    }
    assert(pieces_view(out@) =~= before + flushed(text@));
}

/// Cut a template into pieces, before whitespace control.
fn split(src: &str) -> (r: Result<Vec<Piece>, String>)
    ensures
        match r {
            Ok(v) => cut(src@, 0, Seq::empty()) == Ok::<Seq<PieceV>, Seq<char>>(pieces_view(v@)),
            Err(e) => cut(src@, 0, Seq::empty()) == Err::<Seq<PieceV>, Seq<char>>(e@),
        },
{
    let c = chars_of(src);
    let mut out: Vec<Piece> = Vec::new();
    let mut text = String::new();
    let mut i: usize = 0;
    let ghost want = cut(src@, 0, Seq::empty());
    proof {
        if want is Ok {
            assert(pieces_view(out@) + want->Ok_0 =~= want->Ok_0);
        }
    }
    while i < c.len()
        invariant
            i <= c@.len(),
            c@ == src@,
            want == cut(src@, 0, Seq::empty()),
            match cut(src@, i as int, text@) {
                Ok(more) => want == Ok::<Seq<PieceV>, Seq<char>>(pieces_view(out@) + more),
                Err(e) => want == Err::<Seq<PieceV>, Seq<char>>(e),
            },
        decreases c.len() - i,
    {
        if c[i] == '{' && i + 1 < c.len() && (c[i + 1] == '{' || c[i + 1] == '%' || c[i + 1] == '#') {
            let kind = c[i + 1];
            let close = if kind == '{' {
                "}}"
            } else if kind == '%' {
                "%}"
            } else {
                "#}"
            };
            proof {
                reveal_strlit("}}");
                reveal_strlit("%}");
                reveal_strlit("#}");
            }
            match find(c.as_slice(), i + 2, close) {
                None => {
                    let mut e = "unclosed {".to_owned();
                    proof {
                        reveal_strlit("unclosed {");
                    }
                    e.push(kind);
                    assert(e@ =~= seq!['u', 'n', 'c', 'l', 'o', 's', 'e', 'd', ' ', '{', kind]);
                    return Err(e);
                },
                Some(end) => {
                    if kind != '#' {
                        let p = piece_from(&c, i + 2, end, kind);
                        let ghost before = pieces_view(out@);
                        let ghost shown = text@;
                        flush(&mut out, text);
                        text = String::new();
                        let ghost mid = pieces_view(out@);
                        out.push(p);
                        assert(pieces_view(out@) =~= mid.push(p@));
                        proof {
                            let rest = cut(src@, end + 2, Seq::empty());
                            if rest is Ok {
                                assert(pieces_view(out@) + rest->Ok_0 =~= before + (flushed(shown) + seq![p@]
                                    + rest->Ok_0));
                            }
                        }
                    }
                    i = end + 2;
                },
            }
        } else {
            text.push(c[i]);
            i += 1;
        }
    }
    flush(&mut out, text);
    Ok(out)
}

/// Cut a template into pieces.
pub fn lex(src: &str) -> (r: Result<Vec<Piece>, String>)
    ensures
        match r {
            Ok(v) => lexed(src@) == Ok::<Seq<PieceV>, Seq<char>>(pieces_view(v@)),
            Err(e) => lexed(src@) == Err::<Seq<PieceV>, Seq<char>>(e@),
        },
{
    let raw = match split(src) {
        Ok(v) => v,
        Err(e) => {
            return Err(e);
        },
    };
    let ghost pv = pieces_view(raw@);
    let mut out: Vec<Piece> = Vec::new();
    let mut k: usize = 0;
    while k < raw.len()
        invariant
            k <= raw@.len(),
            pv == pieces_view(raw@),
            out@.len() == k,
            forall|j: int| 0 <= j < k ==> (#[trigger] out@[j])@ == controlled_piece(pv, j),
        decreases raw.len() - k,
    {
        assert(pv[k as int] == raw@[k as int]@);
        let piece = match &raw[k] {
            Piece::Text(t) => {
                let mut t = t.clone();
                if k + 1 < raw.len() && marks(&raw[k + 1]).0 {
                    t = without_end(t.as_str(), Blank::Space);
                }
                if k > 0 && marks(&raw[k - 1]).1 {
                    t = without_start(t.as_str(), Blank::Space);
                }
                Piece::Text(t)
            },
            Piece::Out(s, l, r) => Piece::Out(s.clone(), *l, *r),
            Piece::Tag(s, l, r) => Piece::Tag(s.clone(), *l, *r),
        };
        out.push(piece);
        k += 1;
    }
    assert(pieces_view(out@) =~= controlled(pv));
    Ok(out)
}

} // verus!
