//! The expressions of a chat template: what is written between `{{` and `}}`.
//!
//! Recursive descent, one function per level of binding. Every nested
//! sub-expression is parsed by a call to [`cond`], which counts the depth; `not`
//! and unary minus recurse without passing through it, and count themselves.

use vstd::prelude::*;
use crate::chat_tree::{BinOp, Expr, ExprV};
use crate::json::{Json, JsonV, Number, NumberV};
use crate::text::{at, chars_of, debug_form, debug_text, is_at, join, join3, same, substring};

verus! {

/// How deep an expression may nest. Recursive descent costs stack per level, and
/// the source is a downloaded file, so `((((((...` has to be a parse error well
/// before it is a segfault. No real template comes close.
pub const MAX_EXPR_DEPTH: usize = 64;

/// An expression and the position after it, or why there is none.
pub type Parsed = Result<(ExprV, nat), Seq<char>>;

// ------------------------------------------------------------------- tokens

pub open spec fn is_ws(c: char) -> bool {
    c == ' ' || c == '\t' || c == '\n' || c == '\r' || c == '\u{c}'
}

pub open spec fn is_word(c: char) -> bool {
    ('a' <= c <= 'z') || ('A' <= c <= 'Z') || ('0' <= c <= '9') || c == '_'
}

/// The first position from `i` on that is not whitespace.
pub open spec fn spaced(s: Seq<char>, i: int) -> int
    decreases s.len() - i,
{
    if 0 <= i < s.len() && is_ws(s[i]) {
        spaced(s, i + 1)
    } else {
        i
    }
}

/// The end of the word that starts at `i`.
pub open spec fn word_to(s: Seq<char>, i: int) -> int
    decreases s.len() - i,
{
    if 0 <= i < s.len() && is_word(s[i]) {
        word_to(s, i + 1)
    } else {
        i
    }
}

/// The word that comes next.
pub open spec fn peek(s: Seq<char>, i: int) -> Seq<char> {
    s.subrange(spaced(s, i), word_to(s, spaced(s, i)))
}

/// The position after the word that comes next.
pub open spec fn past_word(s: Seq<char>, i: int) -> int {
    word_to(s, spaced(s, i))
}

/// The position after the word `w`, where it comes next.
pub open spec fn eat_word(s: Seq<char>, i: nat, w: Seq<char>) -> Option<nat> {
    if i <= s.len() && w.len() > 0 && peek(s, i as int) == w {
        Some(past_word(s, i as int) as nat)
    } else {
        None
    }
}

/// The position after `lit`, where it comes next.
pub open spec fn eat(s: Seq<char>, i: nat, lit: Seq<char>) -> Option<nat> {
    if i <= s.len() && lit.len() > 0 && is_at(s, spaced(s, i as int), lit) {
        Some((spaced(s, i as int) + lit.len()) as nat)
    } else {
        None
    }
}

/// The later of two positions.
pub open spec fn fwd(k: nat, i: nat) -> nat {
    if k < i {
        i
    } else {
        k
    }
}

/// How much text is left.
pub open spec fn left(s: Seq<char>, i: nat) -> nat {
    if i <= s.len() {
        (s.len() - i) as nat
    } else {
        0
    }
}

/// How many levels are left.
pub open spec fn levels(d: nat) -> nat {
    if d <= MAX_EXPR_DEPTH {
        (MAX_EXPR_DEPTH + 1 - d) as nat
    } else {
        0
    }
}

pub proof fn lemma_spaced(s: Seq<char>, i: int)
    requires
        0 <= i <= s.len(),
    ensures
        i <= spaced(s, i) <= s.len(),
    decreases s.len() - i,
{
    if i < s.len() && is_ws(s[i]) {
        lemma_spaced(s, i + 1);
    }
}

pub proof fn lemma_word_to(s: Seq<char>, i: int)
    requires
        0 <= i <= s.len(),
    ensures
        i <= word_to(s, i) <= s.len(),
    decreases s.len() - i,
{
    if i < s.len() && is_word(s[i]) {
        lemma_word_to(s, i + 1);
    }
}

/// What is eaten takes up text.
pub proof fn lemma_eats(s: Seq<char>)
    ensures
        forall|i: nat, w: Seq<char>| #[trigger] eat_word(s, i, w) matches Some(k) ==> i < k <= s.len(),
        forall|i: nat, w: Seq<char>| #[trigger] eat(s, i, w) matches Some(k) ==> i < k <= s.len(),
{
    assert forall|i: nat, w: Seq<char>| (#[trigger] eat_word(s, i, w)) is Some implies i < eat_word(s, i, w)->0 <= s.len() by {
        lemma_spaced(s, i as int);
        lemma_word_to(s, spaced(s, i as int));
    }
    assert forall|i: nat, w: Seq<char>| (#[trigger] eat(s, i, w)) is Some implies i < eat(s, i, w)->0 <= s.len() by {
        lemma_spaced(s, i as int);
    }
}

// ------------------------------------------------------------------ grammar

pub open spec fn bin(op: BinOp, a: ExprV, b: ExprV) -> ExprV {
    ExprV::Bin(op, Box::new(a), Box::new(b))
}

pub open spec fn negated(a: ExprV) -> ExprV {
    ExprV::Not(Box::new(a))
}

/// `a if c else b`.
pub open spec fn cond(s: Seq<char>, i: nat, d: nat) -> Parsed
    decreases levels(d), left(s, i), 20nat,
{
    if d + 1 > MAX_EXPR_DEPTH {
        Err("expression nests too deeply"@)
    } else {
        conditional(s, i, d + 1)
    }
}

/// The inline conditional at its own level. A bare `x if c` with no `else`
/// yields nothing when false.
pub open spec fn conditional(s: Seq<char>, i: nat, d: nat) -> Parsed
    decreases levels(d), left(s, i), 19nat,
{
    proof {
        lemma_eats(s);
    }
    match any_of(s, i, d) {
        Err(e) => Err(e),
        Ok((a, j)) => match eat_word(s, fwd(j, i), "if"@) {
            None => Ok((a, fwd(j, i))),
            Some(k) => match any_of(s, k, d) {
                Err(e) => Err(e),
                Ok((c, m)) => match eat_word(s, fwd(m, k), "else"@) {
                    None => Ok(
                        (
                            ExprV::Cond(
                                Box::new(c),
                                Box::new(a),
                                Box::new(ExprV::Lit(JsonV::Str(Seq::empty()))),
                            ),
                            fwd(m, k),
                        ),
                    ),
                    Some(n) => match cond(s, n, d) {
                        Err(e) => Err(e),
                        Ok((b, q)) => Ok((ExprV::Cond(Box::new(c), Box::new(a), Box::new(b)), fwd(q, n))),
                    },
                },
            },
        },
    }
}

/// Operands joined by `or`.
pub open spec fn any_of(s: Seq<char>, i: nat, d: nat) -> Parsed
    decreases levels(d), left(s, i), 18nat,
{
    match all_of(s, i, d) {
        Err(e) => Err(e),
        Ok((a, j)) => any_more(s, a, fwd(j, i), d),
    }
}

pub open spec fn any_more(s: Seq<char>, a: ExprV, j: nat, d: nat) -> Parsed
    decreases levels(d), left(s, j), 17nat,
{
    proof {
        lemma_eats(s);
    }
    match eat_word(s, j, "or"@) {
        None => Ok((a, j)),
        Some(k) => match all_of(s, k, d) {
            Err(e) => Err(e),
            Ok((b, m)) => any_more(s, bin(BinOp::Or, a, b), fwd(m, k), d),
        },
    }
}

/// Operands joined by `and`.
pub open spec fn all_of(s: Seq<char>, i: nat, d: nat) -> Parsed
    decreases levels(d), left(s, i), 16nat,
{
    match negation(s, i, d) {
        Err(e) => Err(e),
        Ok((a, j)) => all_more(s, a, fwd(j, i), d),
    }
}

pub open spec fn all_more(s: Seq<char>, a: ExprV, j: nat, d: nat) -> Parsed
    decreases levels(d), left(s, j), 15nat,
{
    proof {
        lemma_eats(s);
    }
    match eat_word(s, j, "and"@) {
        None => Ok((a, j)),
        Some(k) => match negation(s, k, d) {
            Err(e) => Err(e),
            Ok((b, m)) => all_more(s, bin(BinOp::And, a, b), fwd(m, k), d),
        },
    }
}

/// An operand, perhaps after `not`.
pub open spec fn negation(s: Seq<char>, i: nat, d: nat) -> Parsed
    decreases levels(d), left(s, i), 14nat,
{
    proof {
        lemma_eats(s);
    }
    match eat_word(s, i, "not"@) {
        Some(k) => if d + 1 > MAX_EXPR_DEPTH {
            Err("expression nests too deeply"@)
        } else {
            match negation(s, k, d + 1) {
                Err(e) => Err(e),
                Ok((a, j)) => Ok((negated(a), fwd(j, k))),
            }
        },
        None => comparison(s, i, d),
    }
}

/// The tests that `is` knows.
pub open spec fn is_test(w: Seq<char>) -> bool {
    w == "defined"@ || w == "none"@ || w == "string"@ || w == "mapping"@ || w == "sequence"@ || w == "iterable"@
}

/// The comparison sign that comes next, and the position after it.
pub open spec fn sign(s: Seq<char>, j: nat) -> Option<(BinOp, nat)> {
    match eat(s, j, "=="@) {
        Some(k) => Some((BinOp::Eq, k)),
        None => match eat(s, j, "!="@) {
            Some(k) => Some((BinOp::Ne, k)),
            None => match eat(s, j, ">="@) {
                Some(k) => Some((BinOp::Ge, k)),
                None => match eat(s, j, "<="@) {
                    Some(k) => Some((BinOp::Le, k)),
                    None => match eat(s, j, ">"@) {
                        Some(k) => Some((BinOp::Gt, k)),
                        None => match eat(s, j, "<"@) {
                            Some(k) => Some((BinOp::Lt, k)),
                            None => None,
                        },
                    },
                },
            },
        },
    }
}

/// A test, a comparison or a membership, of at most two operands.
pub open spec fn comparison(s: Seq<char>, i: nat, d: nat) -> Parsed
    decreases levels(d), left(s, i), 13nat,
{
    proof {
        lemma_eats(s);
    }
    match sum(s, i, d) {
        Err(e) => Err(e),
        Ok((a, j)) => {
            let j = fwd(j, i);
            match eat_word(s, j, "is"@) {
                Some(k) => {
                    let (negate, k) = match eat_word(s, k, "not"@) {
                        Some(n) => (true, n),
                        None => (false, k),
                    };
                    let what = peek(s, k as int);
                    if is_test(what) {
                        let e = bin(BinOp::Is, a, ExprV::Lit(JsonV::Str(what)));
                        Ok(
                            (
                                if negate {
                                    negated(e)
                                } else {
                                    e
                                },
                                fwd(past_word(s, k as int) as nat, k),
                            ),
                        )
                    } else {
                        Err("unsupported test: is "@ + what)
                    }
                },
                None => match sign(s, j) {
                    Some((op, k)) => match sum(s, k, d) {
                        Err(e) => Err(e),
                        Ok((b, m)) => Ok((bin(op, a, b), fwd(m, k))),
                    },
                    None => match eat_word(s, j, "not"@) {
                        Some(k) => match eat_word(s, k, "in"@) {
                            Some(n) => match sum(s, n, d) {
                                Err(e) => Err(e),
                                Ok((b, m)) => Ok((negated(bin(BinOp::In, a, b)), fwd(m, n))),
                            },
                            None => Err("stray `not`"@),
                        },
                        None => match eat_word(s, j, "in"@) {
                            Some(k) => match sum(s, k, d) {
                                Err(e) => Err(e),
                                Ok((b, m)) => Ok((bin(BinOp::In, a, b), fwd(m, k))),
                            },
                            None => Ok((a, j)),
                        },
                    },
                },
            }
        },
    }
}

/// The sign of a sum that comes next, and the position after it. `~` is string
/// concatenation; `+` does double duty, so both are the same operator.
pub open spec fn sum_sign(s: Seq<char>, j: nat) -> Option<(BinOp, nat)> {
    match eat(s, j, "~"@) {
        Some(k) => Some((BinOp::Plus, k)),
        None => match eat(s, j, "+"@) {
            Some(k) => Some((BinOp::Plus, k)),
            None => match eat(s, j, "-"@) {
                Some(k) => Some((BinOp::Minus, k)),
                None => None,
            },
        },
    }
}

/// Operands joined by `+`, `~` or `-`.
pub open spec fn sum(s: Seq<char>, i: nat, d: nat) -> Parsed
    decreases levels(d), left(s, i), 12nat,
{
    match postfix(s, i, d) {
        Err(e) => Err(e),
        Ok((a, j)) => sum_more(s, a, fwd(j, i), d),
    }
}

pub open spec fn sum_more(s: Seq<char>, a: ExprV, j: nat, d: nat) -> Parsed
    decreases levels(d), left(s, j), 11nat,
{
    proof {
        lemma_eats(s);
    }
    match sum_sign(s, j) {
        None => Ok((a, j)),
        Some((op, k)) => match postfix(s, k, d) {
            Err(e) => Err(e),
            Ok((b, m)) => sum_more(s, bin(op, a, b), fwd(m, k), d),
        },
    }
}

/// A primary expression and the indices, fields, calls and filters after it.
pub open spec fn postfix(s: Seq<char>, i: nat, d: nat) -> Parsed
    decreases levels(d), left(s, i), 10nat,
{
    match primary(s, i, d) {
        Err(e) => Err(e),
        Ok((a, j)) => postfix_more(s, a, fwd(j, i), d),
    }
}

pub open spec fn postfix_more(s: Seq<char>, a: ExprV, j: nat, d: nat) -> Parsed
    decreases levels(d), left(s, j), 9nat,
{
    proof {
        lemma_eats(s);
    }
    match eat(s, j, "["@) {
        Some(k) => match cond(s, k, d) {
            Err(e) => Err(e),
            Ok((idx, m)) => match eat(s, fwd(m, k), "]"@) {
                None => Err("unclosed `[`"@),
                Some(n) => postfix_more(s, ExprV::Index(Box::new(a), Box::new(idx)), n, d),
            },
        },
        None => match eat(s, j, "."@) {
            Some(k) => {
                let name = peek(s, k as int);
                let m = fwd(past_word(s, k as int) as nat, k);
                if name.len() == 0 {
                    Err("`.` with no field"@)
                } else {
                    // A call with no arguments reads as a filter.
                    match eat(s, m, "("@) {
                        Some(n) => match arguments(s, n, d) {
                            Err(e) => Err(e),
                            Ok((args, q)) => postfix_more(s, ExprV::Filter(Box::new(a), name, args), fwd(q, n), d),
                        },
                        None => postfix_more(
                            s,
                            ExprV::Index(Box::new(a), Box::new(ExprV::Lit(JsonV::Str(name)))),
                            m,
                            d,
                        ),
                    }
                }
            },
            None => match eat(s, j, "|"@) {
                Some(k) => {
                    let name = peek(s, k as int);
                    let m = fwd(past_word(s, k as int) as nat, k);
                    if name.len() == 0 {
                        Err("`|` with no filter"@)
                    } else {
                        match eat(s, m, "("@) {
                            Some(n) => match arguments(s, n, d) {
                                Err(e) => Err(e),
                                Ok((args, q)) => postfix_more(
                                    s,
                                    ExprV::Filter(Box::new(a), name, args),
                                    fwd(q, n),
                                    d,
                                ),
                            },
                            None => postfix_more(s, ExprV::Filter(Box::new(a), name, Seq::empty()), m, d),
                        }
                    }
                },
                None => Ok((a, j)),
            },
        },
    }
}

/// The arguments of a call, up to the closing parenthesis.
pub open spec fn arguments(s: Seq<char>, i: nat, d: nat) -> Result<(Seq<ExprV>, nat), Seq<char>>
    decreases levels(d), left(s, i), 22nat,
{
    match eat(s, i, ")"@) {
        Some(k) => Ok((Seq::empty(), k)),
        None => listed(s, Seq::empty(), i, ")"@, "unclosed `(`"@, d),
    }
}

/// Expressions with commas between them, up to the closing sign.
pub open spec fn listed(
    s: Seq<char>,
    before: Seq<ExprV>,
    i: nat,
    close: Seq<char>,
    unclosed: Seq<char>,
    d: nat,
) -> Result<(Seq<ExprV>, nat), Seq<char>>
    decreases levels(d), left(s, i), 21nat,
{
    proof {
        lemma_eats(s);
    }
    match cond(s, i, d) {
        Err(e) => Err(e),
        Ok((a, j)) => match eat(s, fwd(j, i), ","@) {
            Some(k) => listed(s, before.push(a), k, close, unclosed, d),
            None => match eat(s, fwd(j, i), close) {
                Some(k) => Ok((before.push(a), k)),
                None => Err(unclosed),
            },
        },
    }
}

/// What a backslash in front of a character stands for.
pub open spec fn unescaped(c: char) -> char {
    if c == 'n' {
        '\n'
    } else if c == 't' {
        '\t'
    } else if c == 'r' {
        '\r'
    } else {
        c
    }
}

/// The rest of a string that ends with `quote`, and the position after it.
pub open spec fn string_rest(s: Seq<char>, i: nat, quote: char, val: Seq<char>) -> Result<(Seq<char>, nat), Seq<char>>
    decreases left(s, i),
{
    if i >= s.len() {
        Err("unterminated string"@)
    } else if s[i as int] == quote {
        Ok((val, i + 1))
    } else if s[i as int] == '\\' && i + 1 < s.len() {
        string_rest(s, i + 2, quote, val.push(unescaped(s[i as int + 1])))
    } else {
        string_rest(s, i + 1, quote, val.push(s[i as int]))
    }
}

pub open spec fn is_digit(c: char) -> bool {
    '0' <= c <= '9'
}

/// The end of the digits and points that start at `i`.
pub open spec fn number_to(s: Seq<char>, i: int) -> int
    decreases s.len() - i,
{
    if 0 <= i < s.len() && (is_digit(s[i]) || s[i] == '.') {
        number_to(s, i + 1)
    } else {
        i
    }
}

/// How many decimal points a text has.
pub open spec fn points(t: Seq<char>) -> nat
    decreases t.len(),
{
    if t.len() == 0 {
        0
    } else {
        points(t.drop_last()) + (if t.last() == '.' { 1nat } else { 0nat })
    }
}

/// The number that digits write.
pub open spec fn digits_value(t: Seq<char>) -> nat
    decreases t.len(),
{
    if t.len() == 0 {
        0
    } else {
        10 * digits_value(t.drop_last()) + (t.last() as nat - 48) as nat
    }
}

/// A number literal. One without a decimal point stays an integer.
pub open spec fn number(t: Seq<char>) -> Result<ExprV, Seq<char>> {
    if points(t) > 1 {
        Err("bad number"@)
    } else if points(t) == 1 {
        Ok(ExprV::Decimal(t))
    } else if digits_value(t) > i64::MAX {
        Err("bad number"@)
    } else {
        Ok(ExprV::Lit(JsonV::Num(NumberV::Pos(digits_value(t) as u64))))
    }
}

/// An integer with its sign changed.
pub open spec fn flipped(n: int) -> NumberV {
    if n > 0 {
        NumberV::Neg((-n) as i64)
    } else {
        NumberV::Pos((-n) as u64)
    }
}

/// An expression after a minus sign: a number literal changes its sign, and
/// anything else is taken from nothing.
pub open spec fn minus(e: ExprV) -> ExprV {
    match e {
        ExprV::Lit(JsonV::Num(n)) if JsonV::Num(n).as_i64() is Some => ExprV::Lit(
            JsonV::Num(flipped(JsonV::Num(n).as_i64()->0 as int)),
        ),
        ExprV::Decimal(_) => ExprV::Negative(Box::new(e)),
        ExprV::Negative(_) => ExprV::Negative(Box::new(e)),
        _ => bin(BinOp::Minus, ExprV::Lit(JsonV::Num(NumberV::Pos(0))), e),
    }
}

/// A name, or one of the words that stand for a value.
pub open spec fn named(w: Seq<char>) -> ExprV {
    if w == "true"@ || w == "True"@ {
        ExprV::Lit(JsonV::Bool(true))
    } else if w == "false"@ || w == "False"@ {
        ExprV::Lit(JsonV::Bool(false))
    } else if w == "none"@ || w == "None"@ {
        ExprV::Lit(JsonV::Null)
    } else {
        ExprV::Var(w)
    }
}

/// A string, a parenthesis, a list, a number, a name, or one of these after a
/// minus sign.
pub open spec fn primary(s: Seq<char>, i: nat, d: nat) -> Parsed
    decreases levels(d), left(s, i), 8nat,
{
    proof {
        lemma_eats(s);
        if i <= s.len() {
            lemma_spaced(s, i as int);
        }
    }
    let p = spaced(s, i as int) as nat;
    if i > s.len() || p >= s.len() {
        Err("expression ended early"@)
    } else {
        let c = s[p as int];
        if c == '\'' || c == '"' {
            match string_rest(s, p + 1, c, Seq::empty()) {
                Err(e) => Err(e),
                Ok((val, j)) => Ok((ExprV::Lit(JsonV::Str(val)), j)),
            }
        } else if c == '(' {
            match cond(s, p + 1, d) {
                Err(e) => Err(e),
                Ok((e, m)) => match eat(s, fwd(m, p + 1), ")"@) {
                    None => Err("unclosed `(`"@),
                    Some(n) => Ok((e, n)),
                },
            }
        } else if c == '[' {
            match eat(s, p + 1, "]"@) {
                Some(n) => Ok((ExprV::List(Seq::empty()), n)),
                None => match listed(s, Seq::empty(), p + 1, "]"@, "unclosed `[`"@, d) {
                    Err(e) => Err(e),
                    Ok((items, n)) => Ok((ExprV::List(items), n)),
                },
            }
        } else if c == '-' {
            if d + 1 > MAX_EXPR_DEPTH {
                Err("expression nests too deeply"@)
            } else {
                match postfix(s, p + 1, d + 1) {
                    Err(e) => Err(e),
                    Ok((a, j)) => Ok((minus(a), fwd(j, p + 1))),
                }
            }
        } else if is_digit(c) {
            let end = number_to(s, p as int);
            match number(s.subrange(p as int, end)) {
                Err(e) => Err(e),
                Ok(e) => Ok((e, end as nat)),
            }
        } else {
            let w = peek(s, i as int);
            if w.len() == 0 {
                Err("unexpected "@ + debug_form(s.subrange(p as int, s.len() as int)))
            } else {
                Ok((named(w), past_word(s, i as int) as nat))
            }
        }
    }
}

/// A whole expression.
pub open spec fn expression(s: Seq<char>) -> Result<ExprV, Seq<char>> {
    match cond(s, 0, 0) {
        Err(e) => Err(e),
        Ok((e, j)) => {
            let p = spaced(s, j as int);
            if p >= s.len() {
                Ok(e)
            } else {
                Err(
                    "cannot parse expression: "@ + debug_form(s) + " (stopped at "@ + debug_form(
                        s.subrange(p, s.len() as int),
                    ) + ")"@,
                )
            }
        },
    }
}

/// Whether an expression is a conditional that no brackets stand around.
pub open spec fn is_conditional(s: Seq<char>) -> bool {
    match any_of(s, 0, 1) {
        Ok((_, j)) => eat_word(s, j, "if"@) is Some,
        Err(_) => false,
    }
}

/// Whether a text is a name that an expression can read.
pub open spec fn is_name(s: Seq<char>) -> bool {
    expression(s) == Ok::<ExprV, Seq<char>>(ExprV::Var(s))
}

// ------------------------------------------------------------------- parsing

/// Whether a parser found what the grammar says, at or after where it began.
pub open spec fn agrees(r: Result<(Expr, usize), String>, want: Parsed, i: usize, n: nat) -> bool {
    match r {
        Ok(p) => want == Ok::<(ExprV, nat), Seq<char>>((p.0@, p.1 as nat)) && i <= p.1 <= n,
        Err(e) => want == Err::<(ExprV, nat), Seq<char>>(e@),
    }
}

/// What some expressions hold.
pub open spec fn exprs(v: Seq<Expr>) -> Seq<ExprV> {
    Seq::new(v.len(), |i: int| v[i]@)
}

pub open spec fn agrees_all(
    r: Result<(Vec<Expr>, usize), String>,
    want: Result<(Seq<ExprV>, nat), Seq<char>>,
    i: usize,
    n: nat,
) -> bool {
    match r {
        Ok(p) => want == Ok::<(Seq<ExprV>, nat), Seq<char>>((exprs(p.0@), p.1 as nat)) && i <= p.1 <= n,
        Err(e) => want == Err::<(Seq<ExprV>, nat), Seq<char>>(e@),
    }
}

fn space(s: &Vec<char>, i: usize) -> (j: usize)
    requires
        i <= s@.len(),
    ensures
        j == spaced(s@, i as int),
        i <= j <= s@.len(),
{
    let mut j: usize = i;
    while j < s.len() && (s[j] == ' ' || s[j] == '\t' || s[j] == '\n' || s[j] == '\r' || s[j] == '\u{c}')
        invariant
            i <= j <= s@.len(),
            spaced(s@, i as int) == spaced(s@, j as int),
        decreases s.len() - j,
    {
        j += 1;
    }
    j
}

/// The word that comes next, and the position after it.
fn next_word(s: &Vec<char>, i: usize) -> (r: (String, usize))
    requires
        i <= s@.len(),
    ensures
        r.0@ == peek(s@, i as int),
        r.1 == past_word(s@, i as int),
        i <= r.1 <= s@.len(),
{
    let a: usize = space(s, i);
    let mut j: usize = a;
    while j < s.len() && (('a' <= s[j] && s[j] <= 'z') || ('A' <= s[j] && s[j] <= 'Z') || ('0' <= s[j] && s[j] <= '9')
        || s[j] == '_')
        invariant
            a <= j <= s@.len(),
            word_to(s@, a as int) == word_to(s@, j as int),
        decreases s.len() - j,
    {
        j += 1;
    }
    (substring(s.as_slice(), a, j), j)
}

fn take_word(s: &Vec<char>, i: usize, w: &str) -> (r: Option<usize>)
    requires
        i <= s@.len(),
    ensures
        match r {
            Some(k) => eat_word(s@, i as nat, w@) == Some(k as nat) && i < k <= s@.len(),
            None => eat_word(s@, i as nat, w@) is None,
        },
{
    proof {
        lemma_eats(s@);
    }
    if w.is_empty() {
        return None;
    }
    let (found, k) = next_word(s, i);
    if same(found.as_str(), w) {
        assert(eat_word(s@, i as nat, w@) == Some(k as nat));
        Some(k)
    } else {
        None
    }
}

fn take(s: &Vec<char>, i: usize, lit: &str) -> (r: Option<usize>)
    requires
        i <= s@.len(),
    ensures
        match r {
            Some(k) => eat(s@, i as nat, lit@) == Some(k as nat) && i < k <= s@.len(),
            None => eat(s@, i as nat, lit@) is None,
        },
{
    proof {
        lemma_eats(s@);
    }
    if lit.is_empty() {
        return None;
    }
    let a: usize = space(s, i);
    if at(s.as_slice(), a, lit) {
        let n: usize = chars_of(lit).len();
        assert(eat(s@, i as nat, lit@) == Some((a + n) as nat));
        assert(a + n <= s.len());
        Some(a + n)
    } else {
        None
    }
}

fn make_bin(op: BinOp, a: Expr, b: Expr) -> (e: Expr)
    ensures
        e@ == bin(op, a@, b@),
{
    Expr::Bin(op, Box::new(a), Box::new(b))
}

fn make_not(a: Expr) -> (e: Expr)
    ensures
        e@ == negated(a@),
{
    Expr::Not(Box::new(a))
}

fn text_lit(t: String) -> (e: Expr)
    ensures
        e@ == ExprV::Lit(JsonV::Str(t@)),
{
    Expr::Lit(Json::Str(t))
}

/// `a if c else b`, the inline conditional Llama's template leans on.
fn p_cond(s: &Vec<char>, i: usize, d: usize) -> (r: Result<(Expr, usize), String>)
    requires
        i <= s@.len(),
        d <= MAX_EXPR_DEPTH,
    ensures
        agrees(r, cond(s@, i as nat, d as nat), i, s@.len()),
    decreases MAX_EXPR_DEPTH - d, s@.len() - i, 20int,
{
    if d + 1 > MAX_EXPR_DEPTH {
        return Err("expression nests too deeply".to_owned());
    }
    p_cond_inner(s, i, d + 1)
}

fn make_cond(c: Expr, a: Expr, b: Expr) -> (e: Expr)
    ensures
        e@ == ExprV::Cond(Box::new(c@), Box::new(a@), Box::new(b@)),
{
    Expr::Cond(Box::new(c), Box::new(a), Box::new(b))
}

/// What follows the `if` of a conditional.
fn p_cond_rest(s: &Vec<char>, a: Expr, k: usize, d: usize, Ghost(i): Ghost<usize>) -> (r: Result<(Expr, usize), String>)
    requires
        i <= s@.len(),
        i < k <= s@.len(),
        d <= MAX_EXPR_DEPTH,
        any_of(s@, i as nat, d as nat) matches Ok((x, j)) && x == a@ && eat_word(s@, fwd(j, i as nat), "if"@) == Some(
            k as nat,
        ),
    ensures
        agrees(r, conditional(s@, i as nat, d as nat), i, s@.len()),
    decreases MAX_EXPR_DEPTH - d, s@.len() - k, 19int,
{
    let (c, m) = match p_or(s, k, d) {
        Ok(p) => p,
        Err(e) => {
            return Err(e);
        },
    };
    match take_word(s, m, "else") {
        // A bare `x if c` with no else yields nothing when false.
        None => {
            let none = String::new();
            assert(none@ =~= Seq::<char>::empty());
            Ok((make_cond(c, a, text_lit(none)), m))
        },
        Some(n) => match p_cond(s, n, d) {
            Ok((b, q)) => Ok((make_cond(c, a, b), q)),
            Err(e) => Err(e),
        },
    }
}

fn p_cond_inner(s: &Vec<char>, i: usize, d: usize) -> (r: Result<(Expr, usize), String>)
    requires
        i <= s@.len(),
        d <= MAX_EXPR_DEPTH,
    ensures
        agrees(r, conditional(s@, i as nat, d as nat), i, s@.len()),
    decreases MAX_EXPR_DEPTH - d, s@.len() - i, 19int,
{
    match p_or(s, i, d) {
        Err(e) => Err(e),
        Ok((a, j)) => match take_word(s, j, "if") {
            None => Ok((a, j)),
            Some(k) => p_cond_rest(s, a, k, d, Ghost(i)),
        },
    }
}

fn p_or(s: &Vec<char>, i: usize, d: usize) -> (r: Result<(Expr, usize), String>)
    requires
        i <= s@.len(),
        d <= MAX_EXPR_DEPTH,
    ensures
        agrees(r, any_of(s@, i as nat, d as nat), i, s@.len()),
    decreases MAX_EXPR_DEPTH - d, s@.len() - i, 18int,
{
    let (mut a, mut j) = match p_and(s, i, d) {
        Ok(p) => p,
        Err(e) => {
            return Err(e);
        },
    };
    loop
        invariant
            i <= j <= s@.len(),
            d <= MAX_EXPR_DEPTH,
            any_of(s@, i as nat, d as nat) == any_more(s@, a@, j as nat, d as nat),
        decreases s@.len() - j,
    {
        match take_word(s, j, "or") {
            None => {
                return Ok((a, j));
            },
            Some(k) => match p_and(s, k, d) {
                Ok((b, m)) => {
                    a = make_bin(BinOp::Or, a, b);
                    j = m;
                },
                Err(e) => {
                    return Err(e);
                },
            },
        }
    }
}

fn p_and(s: &Vec<char>, i: usize, d: usize) -> (r: Result<(Expr, usize), String>)
    requires
        i <= s@.len(),
        d <= MAX_EXPR_DEPTH,
    ensures
        agrees(r, all_of(s@, i as nat, d as nat), i, s@.len()),
    decreases MAX_EXPR_DEPTH - d, s@.len() - i, 16int,
{
    let (mut a, mut j) = match p_not(s, i, d) {
        Ok(p) => p,
        Err(e) => {
            return Err(e);
        },
    };
    loop
        invariant
            i <= j <= s@.len(),
            d <= MAX_EXPR_DEPTH,
            all_of(s@, i as nat, d as nat) == all_more(s@, a@, j as nat, d as nat),
        decreases s@.len() - j,
    {
        match take_word(s, j, "and") {
            None => {
                return Ok((a, j));
            },
            Some(k) => match p_not(s, k, d) {
                Ok((b, m)) => {
                    a = make_bin(BinOp::And, a, b);
                    j = m;
                },
                Err(e) => {
                    return Err(e);
                },
            },
        }
    }
}

fn p_not(s: &Vec<char>, i: usize, d: usize) -> (r: Result<(Expr, usize), String>)
    requires
        i <= s@.len(),
        d <= MAX_EXPR_DEPTH,
    ensures
        agrees(r, negation(s@, i as nat, d as nat), i, s@.len()),
    decreases MAX_EXPR_DEPTH - d, s@.len() - i, 14int,
{
    match take_word(s, i, "not") {
        Some(k) => {
            // `not not not ...` recurses here without reaching a primary, so
            // this is the second place the depth has to be counted.
            if d + 1 > MAX_EXPR_DEPTH {
                return Err("expression nests too deeply".to_owned());
            }
            match p_not(s, k, d + 1) {
                Ok((a, j)) => Ok((make_not(a), j)),
                Err(e) => Err(e),
            }
        },
        None => p_compare(s, i, d),
    }
}

/// The comparison sign that comes next.
fn next_sign(s: &Vec<char>, j: usize) -> (r: Option<(BinOp, usize)>)
    requires
        j <= s@.len(),
    ensures
        match r {
            Some((op, k)) => sign(s@, j as nat) == Some((op, k as nat)) && j < k <= s@.len(),
            None => sign(s@, j as nat) is None,
        },
{
    if let Some(k) = take(s, j, "==") {
        Some((BinOp::Eq, k))
    } else if let Some(k) = take(s, j, "!=") {
        Some((BinOp::Ne, k))
    } else if let Some(k) = take(s, j, ">=") {
        Some((BinOp::Ge, k))
    } else if let Some(k) = take(s, j, "<=") {
        Some((BinOp::Le, k))
    } else if let Some(k) = take(s, j, ">") {
        Some((BinOp::Gt, k))
    } else if let Some(k) = take(s, j, "<") {
        Some((BinOp::Lt, k))
    } else {
        None
    }
}

/// The right operand of an operator.
fn p_right(s: &Vec<char>, k: usize, d: usize, op: BinOp, a: Expr, negate: bool) -> (r: Result<(Expr, usize), String>)
    requires
        k <= s@.len(),
        d <= MAX_EXPR_DEPTH,
    ensures
        agrees(
            r,
            match sum(s@, k as nat, d as nat) {
                Err(e) => Err(e),
                Ok((b, m)) => Ok(
                    (
                        if negate {
                            negated(bin(op, a@, b))
                        } else {
                            bin(op, a@, b)
                        },
                        fwd(m, k as nat),
                    ),
                ),
            },
            k,
            s@.len(),
        ),
    decreases MAX_EXPR_DEPTH - d, s@.len() - k, 13int,
{
    match p_add(s, k, d) {
        Ok((b, m)) => {
            let e = make_bin(op, a, b);
            if negate {
                Ok((make_not(e), m))
            } else {
                Ok((e, m))
            }
        },
        Err(e) => Err(e),
    }
}

fn p_compare(s: &Vec<char>, i: usize, d: usize) -> (r: Result<(Expr, usize), String>)
    requires
        i <= s@.len(),
        d <= MAX_EXPR_DEPTH,
    ensures
        agrees(r, comparison(s@, i as nat, d as nat), i, s@.len()),
    decreases MAX_EXPR_DEPTH - d, s@.len() - i, 13int,
{
    let (a, j) = match p_add(s, i, d) {
        Ok(p) => p,
        Err(e) => {
            return Err(e);
        },
    };
    // `is defined`, `is not none` and friends, as a comparison of one operand.
    if let Some(k) = take_word(s, j, "is") {
        let (negate, k): (bool, usize) = match take_word(s, k, "not") {
            Some(n) => (true, n),
            None => (false, k),
        };
        let (what, end) = next_word(s, k);
        let known = same(what.as_str(), "defined") || same(what.as_str(), "none") || same(what.as_str(), "string")
            || same(what.as_str(), "mapping") || same(what.as_str(), "sequence") || same(what.as_str(), "iterable");
        if !known {
            return Err(join("unsupported test: is ", what.as_str()));
        }
        let e = make_bin(BinOp::Is, a, text_lit(what));
        return Ok(
            (
                if negate {
                    make_not(e)
                } else {
                    e
                },
                end,
            ),
        );
    }
    if let Some((op, k)) = next_sign(s, j) {
        return p_right(s, k, d, op, a, false);
    }
    if let Some(k) = take_word(s, j, "not") {
        return match take_word(s, k, "in") {
            Some(n) => p_right(s, n, d, BinOp::In, a, true),
            None => Err("stray `not`".to_owned()),
        };
    }
    if let Some(k) = take_word(s, j, "in") {
        return p_right(s, k, d, BinOp::In, a, false);
    }
    Ok((a, j))
}

/// The sign of a sum that comes next.
fn next_sum_sign(s: &Vec<char>, j: usize) -> (r: Option<(BinOp, usize)>)
    requires
        j <= s@.len(),
    ensures
        match r {
            Some((op, k)) => sum_sign(s@, j as nat) == Some((op, k as nat)) && j < k <= s@.len(),
            None => sum_sign(s@, j as nat) is None,
        },
{
    if let Some(k) = take(s, j, "~") {
        Some((BinOp::Plus, k))
    } else if let Some(k) = take(s, j, "+") {
        Some((BinOp::Plus, k))
    } else if let Some(k) = take(s, j, "-") {
        Some((BinOp::Minus, k))
    } else {
        None
    }
}

fn p_add(s: &Vec<char>, i: usize, d: usize) -> (r: Result<(Expr, usize), String>)
    requires
        i <= s@.len(),
        d <= MAX_EXPR_DEPTH,
    ensures
        agrees(r, sum(s@, i as nat, d as nat), i, s@.len()),
    decreases MAX_EXPR_DEPTH - d, s@.len() - i, 12int,
{
    let (mut a, mut j) = match p_postfix(s, i, d) {
        Ok(p) => p,
        Err(e) => {
            return Err(e);
        },
    };
    loop
        invariant
            i <= j <= s@.len(),
            d <= MAX_EXPR_DEPTH,
            sum(s@, i as nat, d as nat) == sum_more(s@, a@, j as nat, d as nat),
        decreases s@.len() - j,
    {
        match next_sum_sign(s, j) {
            None => {
                return Ok((a, j));
            },
            Some((op, k)) => match p_postfix(s, k, d) {
                Ok((b, m)) => {
                    a = make_bin(op, a, b);
                    j = m;
                },
                Err(e) => {
                    return Err(e);
                },
            },
        }
    }
}

fn make_filter(a: Expr, name: String, args: Vec<Expr>) -> (e: Expr)
    ensures
        e@ == ExprV::Filter(Box::new(a@), name@, exprs(args@)),
{
    let e = Expr::Filter(Box::new(a), name, args);
    assert(e@->Filter_2 =~= exprs(args@));
    e
}

#[verifier::spinoff_prover]
#[verifier::rlimit(30)]
fn p_postfix(s: &Vec<char>, i: usize, d: usize) -> (r: Result<(Expr, usize), String>)
    requires
        i <= s@.len(),
        d <= MAX_EXPR_DEPTH,
    ensures
        agrees(r, postfix(s@, i as nat, d as nat), i, s@.len()),
    decreases MAX_EXPR_DEPTH - d, s@.len() - i, 10int,
{
    let (mut a, mut j) = match p_primary(s, i, d) {
        Ok(p) => p,
        Err(e) => {
            return Err(e);
        },
    };
    loop
        invariant
            i <= j <= s@.len(),
            d <= MAX_EXPR_DEPTH,
            postfix(s@, i as nat, d as nat) == postfix_more(s@, a@, j as nat, d as nat),
        decreases s@.len() - j,
    {
        if let Some(k) = take(s, j, "[") {
            let (idx, m) = match p_cond(s, k, d) {
                Ok(p) => p,
                Err(e) => {
                    return Err(e);
                },
            };
            match take(s, m, "]") {
                None => {
                    return Err("unclosed `[`".to_owned());
                },
                Some(n) => {
                    a = Expr::Index(Box::new(a), Box::new(idx));
                    j = n;
                },
            }
        } else if let Some(k) = take(s, j, ".") {
            let (name, m) = next_word(s, k);
            if name.as_str().is_empty() {
                return Err("`.` with no field".to_owned());
            }
            // `x.items()` and friends: a call with no arguments reads as a filter.
            match take(s, m, "(") {
                Some(n) => match p_args(s, n, d) {
                    Ok((args, q)) => {
                        a = make_filter(a, name, args);
                        j = q;
                    },
                    Err(e) => {
                        return Err(e);
                    },
                },
                None => {
                    a = Expr::Index(Box::new(a), Box::new(text_lit(name)));
                    j = m;
                },
            }
        } else if let Some(k) = take(s, j, "|") {
            let (name, m) = next_word(s, k);
            if name.as_str().is_empty() {
                return Err("`|` with no filter".to_owned());
            }
            match take(s, m, "(") {
                Some(n) => match p_args(s, n, d) {
                    Ok((args, q)) => {
                        a = make_filter(a, name, args);
                        j = q;
                    },
                    Err(e) => {
                        return Err(e);
                    },
                },
                None => {
                    let none: Vec<Expr> = Vec::new();
                    assert(exprs(none@) =~= Seq::<ExprV>::empty());
                    a = make_filter(a, name, none);
                    j = m;
                },
            }
        } else {
            return Ok((a, j));
        }
    }
}

fn p_args(s: &Vec<char>, i: usize, d: usize) -> (r: Result<(Vec<Expr>, usize), String>)
    requires
        i <= s@.len(),
        d <= MAX_EXPR_DEPTH,
    ensures
        agrees_all(r, arguments(s@, i as nat, d as nat), i, s@.len()),
    decreases MAX_EXPR_DEPTH - d, s@.len() - i, 22int,
{
    if let Some(k) = take(s, i, ")") {
        let none: Vec<Expr> = Vec::new();
        assert(exprs(none@) =~= Seq::<ExprV>::empty());
        return Ok((none, k));
    }
    p_list(s, i, ")", "unclosed `(`", d)
}

/// Expressions with commas between them, up to the closing sign.
fn p_list(s: &Vec<char>, i: usize, close: &str, unclosed: &str, d: usize) -> (r: Result<(Vec<Expr>, usize), String>)
    requires
        i <= s@.len(),
        d <= MAX_EXPR_DEPTH,
    ensures
        agrees_all(r, listed(s@, Seq::empty(), i as nat, close@, unclosed@, d as nat), i, s@.len()),
    decreases MAX_EXPR_DEPTH - d, s@.len() - i, 21int,
{
    let ghost want = listed(s@, Seq::empty(), i as nat, close@, unclosed@, d as nat);
    let mut items: Vec<Expr> = Vec::new();
    let mut j: usize = i;
    assert(exprs(items@) =~= Seq::<ExprV>::empty());
    loop
        invariant
            i <= j <= s@.len(),
            d <= MAX_EXPR_DEPTH,
            want == listed(s@, Seq::empty(), i as nat, close@, unclosed@, d as nat),
            want == listed(s@, exprs(items@), j as nat, close@, unclosed@, d as nat),
        decreases s@.len() - j,
    {
        let (a, m) = match p_cond(s, j, d) {
            Ok(p) => p,
            Err(e) => {
                return Err(e);
            },
        };
        let ghost before = exprs(items@);
        items.push(a);
        assert(exprs(items@) =~= before.push(a@));
        if let Some(k) = take(s, m, ",") {
            j = k;
            continue;
        }
        if let Some(k) = take(s, m, close) {
            return Ok((items, k));
        }
        return Err(unclosed.to_owned());
    }
}

/// The rest of a string that ends with `quote`.
fn p_string(s: &Vec<char>, i: usize, quote: char) -> (r: Result<(String, usize), String>)
    requires
        i <= s@.len(),
    ensures
        match r {
            Ok(p) => string_rest(s@, i as nat, quote, Seq::empty()) == Ok::<(Seq<char>, nat), Seq<char>>(
                (p.0@, p.1 as nat),
            ) && i <= p.1 <= s@.len(),
            Err(e) => string_rest(s@, i as nat, quote, Seq::empty()) == Err::<(Seq<char>, nat), Seq<char>>(e@),
        },
{
    let mut val = String::new();
    let mut j: usize = i;
    while j < s.len() && s[j] != quote
        invariant
            i <= j <= s@.len(),
            string_rest(s@, i as nat, quote, Seq::empty()) == string_rest(s@, j as nat, quote, val@),
        decreases s.len() - j,
    {
        if s[j] == '\\' && j + 1 < s.len() {
            let c = s[j + 1];
            val.push(
                if c == 'n' {
                    '\n'
                } else if c == 't' {
                    '\t'
                } else if c == 'r' {
                    '\r'
                } else {
                    c
                },
            );
            j += 2;
        } else {
            val.push(s[j]);
            j += 1;
        }
    }
    if j >= s.len() {
        return Err("unterminated string".to_owned());
    }
    Ok((val, j + 1))
}

proof fn lemma_digits_grow(t: Seq<char>, k: int)
    requires
        0 <= k <= t.len(),
        forall|q: int| 0 <= q < t.len() ==> is_digit(#[trigger] t[q]),
    ensures
        digits_value(t.subrange(0, k)) <= digits_value(t),
        points(t) == 0,
    decreases t.len(),
{
    if t.len() > 0 {
        assert(t.drop_last() =~= t.subrange(0, t.len() - 1));
        if k < t.len() {
            lemma_digits_grow(t.drop_last(), k);
            assert(t.drop_last().subrange(0, k) =~= t.subrange(0, k));
        } else {
            lemma_digits_grow(t.drop_last(), t.len() - 1);
            assert(t.subrange(0, k) =~= t);
        }
    } else {
        assert(t.subrange(0, k) =~= t);
    }
}

/// A number literal that starts at `i`.
fn p_number(s: &Vec<char>, i: usize) -> (r: Result<(Expr, usize), String>)
    requires
        i < s@.len(),
        is_digit(s@[i as int]),
    ensures
        ({
            let end = number_to(s@, i as int);
            match r {
                Ok(p) => number(s@.subrange(i as int, end)) == Ok::<ExprV, Seq<char>>(p.0@) && p.1 == end && i < p.1
                    <= s@.len(),
                Err(e) => number(s@.subrange(i as int, end)) == Err::<ExprV, Seq<char>>(e@),
            }
        }),
{
    let mut j: usize = i;
    let mut dots: usize = 0;
    assert(s@.subrange(i as int, i as int) =~= Seq::<char>::empty());
    while j < s.len() && (('0' <= s[j] && s[j] <= '9') || s[j] == '.')
        invariant
            i <= j <= s@.len(),
            i < s@.len(),
            is_digit(s@[i as int]),
            number_to(s@, i as int) == number_to(s@, j as int),
            dots == points(s@.subrange(i as int, j as int)),
            dots <= j - i,
            dots == 0 ==> forall|q: int| i <= q < j ==> is_digit(#[trigger] s@[q]),
        decreases s.len() - j,
    {
        assert(s@.subrange(i as int, j + 1).drop_last() =~= s@.subrange(i as int, j as int));
        if s[j] == '.' {
            dots += 1;
        }
        j += 1;
    }
    let ghost t = s@.subrange(i as int, j as int);
    if dots > 1 {
        return Err("bad number".to_owned());
    }
    // An integer literal stays an integer: a template that concatenates one
    // into a prompt must not get "1.0".
    if dots == 1 {
        return Ok((Expr::Decimal(substring(s.as_slice(), i, j)), j));
    }
    let mut value: u64 = 0;
    let mut k: usize = i;
    proof {
        assert(forall|q: int| 0 <= q < t.len() ==> is_digit(#[trigger] t[q]));
        assert(t.subrange(0, 0) =~= Seq::<char>::empty());
    }
    while k < j
        invariant
            i <= k <= j <= s@.len(),
            t == s@.subrange(i as int, j as int),
            points(t) == 0,
            j == number_to(s@, i as int),
            forall|q: int| 0 <= q < t.len() ==> is_digit(#[trigger] t[q]),
            value == digits_value(t.subrange(0, k - i)),
            value <= i64::MAX,
        decreases j - k,
    {
        let c = s[k];
        assert(t[k - i] == c);
        let digit: u64 = c as u64 - 48;
        let ghost prefix = t.subrange(0, k - i + 1);
        assert(prefix.drop_last() =~= t.subrange(0, k - i));
        assert(digits_value(prefix) == 10 * value + digit);
        if value > 922337203685477580 || (value == 922337203685477580 && digit > 7) {
            proof {
                lemma_digits_grow(t, k - i + 1);
            }
            return Err("bad number".to_owned());
        }
        value = value * 10 + digit;
        k += 1;
    }
    assert(t.subrange(0, j - i) =~= t);
    Ok((Expr::Lit(Json::Num(Number::Pos(value))), j))
}

/// An expression after a minus sign.
fn make_minus(e: Expr) -> (r: Expr)
    ensures
        r@ == minus(e@),
{
    match e {
        Expr::Lit(Json::Num(n)) => {
            let whole = Json::Num(n);
            match whole.as_i64() {
                Some(i) => {
                    let flip = if i > 0 {
                        Number::Neg(-i)
                    } else if i == i64::MIN {
                        Number::Pos(9223372036854775808)
                    } else {
                        Number::Pos((-i) as u64)
                    };
                    Expr::Lit(Json::Num(flip))
                },
                None => make_bin(BinOp::Minus, Expr::Lit(Json::Num(Number::Pos(0))), Expr::Lit(whole)),
            }
        },
        Expr::Decimal(t) => Expr::Negative(Box::new(Expr::Decimal(t))),
        Expr::Negative(a) => Expr::Negative(Box::new(Expr::Negative(a))),
        other => make_bin(BinOp::Minus, Expr::Lit(Json::Num(Number::Pos(0))), other),
    }
}

#[verifier::spinoff_prover]
#[verifier::rlimit(30)]
fn p_primary(s: &Vec<char>, i: usize, d: usize) -> (r: Result<(Expr, usize), String>)
    requires
        i <= s@.len(),
        d <= MAX_EXPR_DEPTH,
    ensures
        agrees(r, primary(s@, i as nat, d as nat), i, s@.len()),
    decreases MAX_EXPR_DEPTH - d, s@.len() - i, 8int,
{
    let p: usize = space(s, i);
    if p >= s.len() {
        return Err("expression ended early".to_owned());
    }
    let c = s[p];
    if c == '\'' || c == '"' {
        return match p_string(s, p + 1, c) {
            Ok((val, j)) => Ok((text_lit(val), j)),
            Err(e) => Err(e),
        };
    }
    if c == '(' {
        return match p_cond(s, p + 1, d) {
            Ok((e, m)) => match take(s, m, ")") {
                None => Err("unclosed `(`".to_owned()),
                Some(n) => Ok((e, n)),
            },
            Err(e) => Err(e),
        };
    }
    if c == '[' {
        if let Some(n) = take(s, p + 1, "]") {
            let e = Expr::List(Vec::new());
            assert(e@->List_0 =~= Seq::<ExprV>::empty());
            return Ok((e, n));
        }
        return match p_list(s, p + 1, "]", "unclosed `[`", d) {
            Ok((items, n)) => {
                let e = Expr::List(items);
                assert(e@->List_0 =~= exprs(items@));
                Ok((e, n))
            },
            Err(e) => Err(e),
        };
    }
    // Unary minus, which is how a template writes `messages[-1]`.
    if c == '-' {
        if d + 1 > MAX_EXPR_DEPTH {
            return Err("expression nests too deeply".to_owned());
        }
        return match p_postfix(s, p + 1, d + 1) {
            Ok((a, j)) => Ok((make_minus(a), j)),
            Err(e) => Err(e),
        };
    }
    if '0' <= c && c <= '9' {
        return p_number(s, p);
    }
    let (w, j) = next_word(s, i);
    if w.as_str().is_empty() {
        let rest = substring(s.as_slice(), p, s.len());
        let shown = debug_text(rest.as_str());
        return Err(join("unexpected ", shown.as_str()));
    }
    let t = w.as_str();
    if same(t, "true") || same(t, "True") {
        Ok((Expr::Lit(Json::Bool(true)), j))
    } else if same(t, "false") || same(t, "False") {
        Ok((Expr::Lit(Json::Bool(false)), j))
    } else if same(t, "none") || same(t, "None") {
        Ok((Expr::Lit(Json::Null), j))
    } else {
        Ok((Expr::Var(w), j))
    }
}

/// Parse a whole expression.
pub fn parse_expr(src: &str) -> (r: Result<Expr, String>)
    ensures
        match r {
            Ok(e) => expression(src@) == Ok::<ExprV, Seq<char>>(e@),
            Err(e) => expression(src@) == Err::<ExprV, Seq<char>>(e@),
        },
{
    let s = chars_of(src);
    match p_cond(&s, 0, 0) {
        Ok((e, j)) => {
            let p: usize = space(&s, j);
            if p >= s.len() {
                return Ok(e);
            }
            let rest = substring(s.as_slice(), p, s.len());
            let whole = debug_text(src);
            let stop = debug_text(rest.as_str());
            let head = join3("cannot parse expression: ", whole.as_str(), " (stopped at ");
            Err(join3(head.as_str(), stop.as_str(), ")"))
        },
        Err(e) => Err(e),
    }
}

/// Whether an expression is a conditional that no brackets stand around.
pub fn conditional_at_top(src: &str) -> (r: bool)
    ensures
        r == is_conditional(src@),
{
    let s = chars_of(src);
    match p_or(&s, 0, 1) {
        Ok((_, j)) => take_word(&s, j, "if").is_some(),
        Err(_) => false,
    }
}

/// Whether a text is a name that an expression can read.
pub fn names(src: &str) -> (r: bool)
    ensures
        r == is_name(src@),
{
    match parse_expr(src) {
        Ok(Expr::Var(n)) => same(n.as_str(), src),
        _ => false,
    }
}

} // verus!
