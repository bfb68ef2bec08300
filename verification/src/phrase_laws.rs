//! How the expressions of a template read: which sign or word between two names makes which
//! operation.

use vstd::prelude::*;
use crate::chat_expr::{
    all_more, all_of, any_more, any_of, bin, comparison, cond, conditional, eat, eat_word, expression, is_digit, is_word, is_ws,
    named, negated, negation, past_word, peek, postfix, postfix_more, primary, sign, spaced, sum, sum_more, sum_sign, word_to,
};
use crate::chat_tree::{BinOp, ExprV};
use crate::json::JsonV;
use crate::text::is_at;

verus! {

/// A name: word characters, the first no digit, and none of the words that mean something by
/// themselves.
pub open spec fn is_plain_name(w: Seq<char>) -> bool {
    &&& w.len() > 0
    &&& forall|k: int| 0 <= k < w.len() ==> is_word(#[trigger] w[k])
    &&& !is_digit(w[0])
    &&& w != "not"@
    &&& w != "true"@ && w != "True"@ && w != "false"@ && w != "False"@ && w != "none"@ && w != "None"@
}

proof fn lemma_word_to(s: Seq<char>, i: int, e: int)
    requires
        0 <= i <= e <= s.len(),
        forall|k: int| i <= k < e ==> is_word(#[trigger] s[k]),
        e == s.len() || !is_word(s[e]),
    ensures
        word_to(s, i) == e,
    decreases e - i,
{
    if i < e {
        assert(is_word(s[i]));
        lemma_word_to(s, i + 1, e);
    }
}

/// The word `w` comes next from `i` on, at `p`, and ends at `e`.
pub open spec fn comes_next(s: Seq<char>, i: int, w: Seq<char>, p: int, e: int) -> bool {
    &&& 0 <= i <= p <= e <= s.len()
    &&& spaced(s, i) == p
    &&& e == p + w.len()
    &&& s.subrange(p, e) == w
    &&& forall|k: int| 0 <= k < w.len() ==> is_word(#[trigger] w[k])
    &&& e == s.len() || !is_word(s[e])
}

proof fn lemma_peek(s: Seq<char>, i: int, w: Seq<char>, p: int, e: int)
    requires
        comes_next(s, i, w, p, e),
    ensures
        peek(s, i) == w,
        past_word(s, i) == e,
{
    assert forall|k: int| p <= k < e implies is_word(#[trigger] s[k]) by {
        assert(s.subrange(p, e)[k - p] == w[k - p]);
    }
    lemma_word_to(s, p, e);
}

proof fn lemma_no_eat(s: Seq<char>, i: nat, lit: Seq<char>)
    requires
        lit.len() > 0,
        i <= s.len(),
        spaced(s, i as int) >= s.len() || s[spaced(s, i as int)] != lit[0],
    ensures
        eat(s, i, lit) is None,
{
    let q = spaced(s, i as int);
    if is_at(s, q, lit) {
        assert(s.subrange(q, q + lit.len())[0] == s[q]);
    }
}

/// What comes behind a name does not belong to it.
pub open spec fn ends_operand(s: Seq<char>, e: int) -> bool {
    let q = spaced(s, e);
    q >= s.len() || s[q] != '[' && s[q] != '.' && s[q] != '|'
}

/// What comes behind a name adds nothing to it.
pub open spec fn ends_sum(s: Seq<char>, e: int) -> bool {
    let q = spaced(s, e);
    ends_operand(s, e) && (q >= s.len() || s[q] != '~' && s[q] != '+' && s[q] != '-')
}

/// What comes behind a name compares it with nothing.
pub open spec fn ends_comparison(s: Seq<char>, e: int) -> bool {
    let q = spaced(s, e);
    &&& ends_sum(s, e)
    &&& q >= s.len() || s[q] != '=' && s[q] != '!' && s[q] != '>' && s[q] != '<'
    &&& peek(s, e) != "is"@ && peek(s, e) != "not"@ && peek(s, e) != "in"@
}

proof fn lemma_name(s: Seq<char>, i: nat, w: Seq<char>, p: int, e: int, d: nat)
    requires
        comes_next(s, i as int, w, p, e),
        is_plain_name(w),
    ensures
        primary(s, i, d) == Ok::<(ExprV, nat), Seq<char>>((ExprV::Var(w), e as nat)),
{
    lemma_peek(s, i as int, w, p, e);
    assert(s[p] == s.subrange(p, e)[0]);
    assert(is_word(w[0]));
    assert(primary(s, i, d) == Ok::<(ExprV, nat), Seq<char>>((named(w), e as nat)));
}

proof fn lemma_operand(s: Seq<char>, i: nat, w: Seq<char>, p: int, e: int, d: nat)
    requires
        comes_next(s, i as int, w, p, e),
        is_plain_name(w),
        ends_operand(s, e),
    ensures
        postfix(s, i, d) == Ok::<(ExprV, nat), Seq<char>>((ExprV::Var(w), e as nat)),
{
    reveal_strlit("[");
    reveal_strlit(".");
    reveal_strlit("|");
    lemma_name(s, i, w, p, e, d);
    lemma_no_eat(s, e as nat, "["@);
    lemma_no_eat(s, e as nat, "."@);
    lemma_no_eat(s, e as nat, "|"@);
}

proof fn lemma_sum(s: Seq<char>, i: nat, w: Seq<char>, p: int, e: int, d: nat)
    requires
        comes_next(s, i as int, w, p, e),
        is_plain_name(w),
        ends_sum(s, e),
    ensures
        sum(s, i, d) == Ok::<(ExprV, nat), Seq<char>>((ExprV::Var(w), e as nat)),
{
    reveal_strlit("~");
    reveal_strlit("+");
    reveal_strlit("-");
    lemma_operand(s, i, w, p, e, d);
    lemma_no_eat(s, e as nat, "~"@);
    lemma_no_eat(s, e as nat, "+"@);
    lemma_no_eat(s, e as nat, "-"@);
}

proof fn lemma_no_sign(s: Seq<char>, e: int)
    requires
        0 <= e <= s.len(),
        ({
            let q = spaced(s, e);
            q >= s.len() || s[q] != '=' && s[q] != '!' && s[q] != '>' && s[q] != '<'
        }),
    ensures
        sign(s, e as nat) is None,
{
    reveal_strlit("==");
    reveal_strlit("!=");
    reveal_strlit(">=");
    reveal_strlit("<=");
    reveal_strlit(">");
    reveal_strlit("<");
    lemma_no_eat(s, e as nat, "=="@);
    lemma_no_eat(s, e as nat, "!="@);
    lemma_no_eat(s, e as nat, ">="@);
    lemma_no_eat(s, e as nat, "<="@);
    lemma_no_eat(s, e as nat, ">"@);
    lemma_no_eat(s, e as nat, "<"@);
}

proof fn lemma_comparison(s: Seq<char>, i: nat, w: Seq<char>, p: int, e: int, d: nat)
    requires
        comes_next(s, i as int, w, p, e),
        is_plain_name(w),
        ends_comparison(s, e),
    ensures
        comparison(s, i, d) == Ok::<(ExprV, nat), Seq<char>>((ExprV::Var(w), e as nat)),
        negation(s, i, d) == Ok::<(ExprV, nat), Seq<char>>((ExprV::Var(w), e as nat)),
{
    lemma_sum(s, i, w, p, e, d);
    lemma_no_sign(s, e);
    lemma_peek(s, i as int, w, p, e);
}

/// A name at the end of an expression is read whole, at every level.
pub(crate) proof fn lemma_last(s: Seq<char>, i: nat, w: Seq<char>, p: int, d: nat)
    requires
        comes_next(s, i as int, w, p, s.len() as int),
        is_plain_name(w),
    ensures
        sum(s, i, d) == Ok::<(ExprV, nat), Seq<char>>((ExprV::Var(w), s.len())),
        postfix(s, i, d) == Ok::<(ExprV, nat), Seq<char>>((ExprV::Var(w), s.len())),
        negation(s, i, d) == Ok::<(ExprV, nat), Seq<char>>((ExprV::Var(w), s.len())),
        all_of(s, i, d) == Ok::<(ExprV, nat), Seq<char>>((ExprV::Var(w), s.len())),
        any_of(s, i, d) == Ok::<(ExprV, nat), Seq<char>>((ExprV::Var(w), s.len())),
{
    lemma_end(s);
    lemma_operand(s, i, w, p, s.len() as int, d);
    lemma_sum(s, i, w, p, s.len() as int, d);
    lemma_comparison(s, i, w, p, s.len() as int, d);
}

/// Nothing comes behind the end.
pub(crate) proof fn lemma_end(s: Seq<char>)
    ensures
        spaced(s, s.len() as int) == s.len(),
        peek(s, s.len() as int) == Seq::<char>::empty(),
        peek(s, s.len() as int) != "is"@ && peek(s, s.len() as int) != "not"@ && peek(s, s.len() as int) != "in"@,
        eat_word(s, s.len(), "and"@) is None && eat_word(s, s.len(), "or"@) is None && eat_word(s, s.len(), "if"@) is None,
        sum_sign(s, s.len()) is None,
{
    reveal_strlit("is");
    reveal_strlit("not");
    reveal_strlit("in");
    reveal_strlit("and");
    reveal_strlit("or");
    reveal_strlit("if");
    reveal_strlit("~");
    reveal_strlit("+");
    reveal_strlit("-");
    let n = s.len() as int;
    assert(word_to(s, n) == n);
    assert(s.subrange(n, n) =~= Seq::<char>::empty());
    lemma_no_eat(s, s.len(), "~"@);
    lemma_no_eat(s, s.len(), "+"@);
    lemma_no_eat(s, s.len(), "-"@);
}

/// Two names with something between them.
pub open spec fn between(x: Seq<char>, op: Seq<char>, y: Seq<char>) -> Seq<char> {
    x + seq![' '] + op + seq![' '] + y
}

/// Where the parts of such an expression stand.
proof fn lemma_layout(x: Seq<char>, op: Seq<char>, y: Seq<char>)
    requires
        is_plain_name(x),
        y.len() > 0,
        forall|k: int| 0 <= k < y.len() ==> is_word(#[trigger] y[k]),
        op.len() > 0,
        !is_ws(op[0]),
    ensures
        ({
            let s = between(x, op, y);
            let a = x.len() as int;
            let b = a + 1 + op.len();
            &&& s.len() == b + 1 + y.len()
            &&& comes_next(s, 0, x, 0, a)
            &&& spaced(s, a) == a + 1
            &&& s.subrange(a + 1, b) == op
            &&& s[a + 1] == op[0]
            &&& comes_next(s, b, y, b + 1, s.len() as int)
            &&& (forall|k: int| 0 <= k < op.len() ==> is_word(#[trigger] op[k])) ==> comes_next(s, a, op, a + 1, b)
        }),
{
    let s = between(x, op, y);
    let a = x.len() as int;
    let b = a + 1 + op.len();
    assert(s[0] == x[0]);
    assert(is_word(x[0]) && is_word(y[0]));
    assert(s[a] == ' ' && s[b] == ' ' && s[a + 1] == op[0] && s[b + 1] == y[0]);
    assert(s.subrange(0, a) =~= x);
    assert(s.subrange(a + 1, b) =~= op);
    assert(s.subrange(b + 1, s.len() as int) =~= y);
    assert(spaced(s, a + 1) == a + 1);
    assert(spaced(s, a) == a + 1);
    assert(spaced(s, b + 1) == b + 1);
    assert(spaced(s, b) == b + 1);
}

/// What an expression is, once its parts are read to the end.
pub(crate) proof fn lemma_whole(s: Seq<char>, e: ExprV)
    requires
        any_of(s, 0, 1) == Ok::<(ExprV, nat), Seq<char>>((e, s.len())),
    ensures
        expression(s) == Ok::<ExprV, Seq<char>>(e),
{
    lemma_end(s);
}

#[verifier::spinoff_prover]
#[verifier::rlimit(40)]
proof fn lemma_or(x: Seq<char>, y: Seq<char>)
    requires
        is_plain_name(x),
        is_plain_name(y),
    ensures
        expression(between(x, "or"@, y)) == Ok::<ExprV, Seq<char>>(bin(BinOp::Or, ExprV::Var(x), ExprV::Var(y))),
{
    reveal_strlit("or");
    reveal_strlit("and");
    reveal_strlit("is");
    reveal_strlit("not");
    reveal_strlit("in");
    let a = x.len() as int;
    let s = between(x, "or"@, y);
    let b = a + 3;
    assert("or"@[0] == 'o' && "is"@[0] == 'i' && "in"@[0] == 'i' && "and"@[0] == 'a' && "not"@[0] == 'n');
    lemma_layout(x, "or"@, y);
    lemma_peek(s, a, "or"@, a + 1, b);
    lemma_comparison(s, 0, x, 0, a, 1);
    lemma_last(s, b as nat, y, b + 1, 1);
    lemma_end(s);
    lemma_or_steps(s, ExprV::Var(x), a as nat, b as nat, ExprV::Var(y));
}

proof fn lemma_or_steps(s: Seq<char>, x: ExprV, a: nat, b: nat, y: ExprV)
    requires
        a <= b <= s.len(),
        negation(s, 0, 1) == Ok::<(ExprV, nat), Seq<char>>((x, a)),
        eat_word(s, a, "and"@) is None,
        eat_word(s, a, "or"@) == Some(b),
        all_of(s, b, 1) == Ok::<(ExprV, nat), Seq<char>>((y, s.len())),
        a < s.len(),
    ensures
        expression(s) == Ok::<ExprV, Seq<char>>(bin(BinOp::Or, x, y)),
{
    lemma_end(s);
    let e = bin(BinOp::Or, x, y);
    assert(all_more(s, x, a, 1) == Ok::<(ExprV, nat), Seq<char>>((x, a)));
    assert(all_of(s, 0, 1) == Ok::<(ExprV, nat), Seq<char>>((x, a)));
    assert(any_more(s, e, s.len(), 1) == Ok::<(ExprV, nat), Seq<char>>((e, s.len())));
    assert(any_more(s, x, a, 1) == any_more(s, e, s.len(), 1));
    lemma_whole(s, e);
}

#[verifier::spinoff_prover]
#[verifier::rlimit(40)]
proof fn lemma_and(x: Seq<char>, y: Seq<char>)
    requires
        is_plain_name(x),
        is_plain_name(y),
    ensures
        expression(between(x, "and"@, y)) == Ok::<ExprV, Seq<char>>(bin(BinOp::And, ExprV::Var(x), ExprV::Var(y))),
{
    reveal_strlit("and");
    reveal_strlit("is");
    reveal_strlit("not");
    reveal_strlit("in");
    let a = x.len() as int;
    let s = between(x, "and"@, y);
    let b = a + 4;
    assert("is"@[0] == 'i' && "in"@[0] == 'i' && "and"@[0] == 'a' && "not"@[0] == 'n');
    lemma_layout(x, "and"@, y);
    lemma_peek(s, a, "and"@, a + 1, b);
    lemma_comparison(s, 0, x, 0, a, 1);
    lemma_last(s, b as nat, y, b + 1, 1);
    lemma_end(s);
    lemma_and_steps(s, ExprV::Var(x), a as nat, b as nat, ExprV::Var(y));
}

proof fn lemma_and_steps(s: Seq<char>, x: ExprV, a: nat, b: nat, y: ExprV)
    requires
        a <= b <= s.len(),
        negation(s, 0, 1) == Ok::<(ExprV, nat), Seq<char>>((x, a)),
        eat_word(s, a, "and"@) == Some(b),
        negation(s, b, 1) == Ok::<(ExprV, nat), Seq<char>>((y, s.len())),
        a < s.len(),
    ensures
        expression(s) == Ok::<ExprV, Seq<char>>(bin(BinOp::And, x, y)),
{
    lemma_end(s);
    let e = bin(BinOp::And, x, y);
    assert(all_more(s, e, s.len(), 1) == Ok::<(ExprV, nat), Seq<char>>((e, s.len())));
    assert(all_more(s, x, a, 1) == all_more(s, e, s.len(), 1));
    assert(all_of(s, 0, 1) == Ok::<(ExprV, nat), Seq<char>>((e, s.len())));
    assert(any_more(s, e, s.len(), 1) == Ok::<(ExprV, nat), Seq<char>>((e, s.len())));
    lemma_whole(s, e);
}

/// `or` and `and` between two names are the connectives of those names.
pub proof fn law_connectives_are_read(x: Seq<char>, y: Seq<char>)
    requires
        is_plain_name(x),
        is_plain_name(y),
    ensures
        expression(between(x, "or"@, y)) == Ok::<ExprV, Seq<char>>(
            ExprV::Bin(BinOp::Or, Box::new(ExprV::Var(x)), Box::new(ExprV::Var(y))),
        ),
        expression(between(x, "and"@, y)) == Ok::<ExprV, Seq<char>>(
            ExprV::Bin(BinOp::And, Box::new(ExprV::Var(x)), Box::new(ExprV::Var(y))),
        ),
{
    lemma_or(x, y);
    lemma_and(x, y);
}

/// Behind a comparison of two names nothing more is read.
proof fn lemma_compared(s: Seq<char>, e: ExprV)
    requires
        comparison(s, 0, 1) == Ok::<(ExprV, nat), Seq<char>>((e, s.len())),
        peek(s, 0) != "not"@,
    ensures
        expression(s) == Ok::<ExprV, Seq<char>>(e),
{
    lemma_end(s);
    assert(negation(s, 0, 1) == Ok::<(ExprV, nat), Seq<char>>((e, s.len())));
    assert(all_more(s, e, s.len(), 1) == Ok::<(ExprV, nat), Seq<char>>((e, s.len())));
    assert(any_more(s, e, s.len(), 1) == Ok::<(ExprV, nat), Seq<char>>((e, s.len())));
    lemma_whole(s, e);
}

#[verifier::spinoff_prover]
#[verifier::rlimit(40)]
proof fn lemma_sign_between(x: Seq<char>, op: Seq<char>, y: Seq<char>, o: BinOp)
    requires
        is_plain_name(x),
        is_plain_name(y),
        1 <= op.len() <= 2,
        op[0] == '=' || op[0] == '!' || op[0] == '>' || op[0] == '<',
        op.len() == 2 ==> op[1] == '=',
        o == (if op[0] == '=' {
            BinOp::Eq
        } else if op[0] == '!' {
            BinOp::Ne
        } else if op[0] == '>' {
            if op.len() == 2 {
                BinOp::Ge
            } else {
                BinOp::Gt
            }
        } else if op.len() == 2 {
            BinOp::Le
        } else {
            BinOp::Lt
        }),
        op[0] == '=' || op[0] == '!' ==> op.len() == 2,
    ensures
        expression(between(x, op, y)) == Ok::<ExprV, Seq<char>>(
            ExprV::Bin(o, Box::new(ExprV::Var(x)), Box::new(ExprV::Var(y))),
        ),
{
    reveal_strlit("is");
    let s = between(x, op, y);
    let a = x.len() as int;
    let b = a + 1 + op.len();
    lemma_layout(x, op, y);
    lemma_sum(s, 0, x, 0, a, 1);
    lemma_last(s, b as nat, y, b + 1, 1);
    lemma_peek(s, 0, x, 0, a);
    let rest = s.subrange(a + 1, s.len() as int);
    assert(rest[0] == op[0]);
    assert(s[a + 2] == rest[1]);
    assert(op.len() == 2 ==> s.subrange(a + 1, b)[1] == s[a + 2]);
    assert(op.len() == 1 ==> s[a + 2] == ' ');
    crate::chat_laws::law_signs(s, (a + 1) as nat, rest);
    assert(spaced(s, a + 1) == a + 1);
    assert(sign(s, a as nat) == sign(s, (a + 1) as nat));
    assert(word_to(s, a + 1) == a + 1);
    assert(peek(s, a) =~= Seq::<char>::empty());
    assert(eat_word(s, a as nat, "is"@) is None);
    lemma_compared(s, bin(o, ExprV::Var(x), ExprV::Var(y)));
}

/// The signs between two names compare them as they say.
pub proof fn law_comparisons_are_read(x: Seq<char>, y: Seq<char>)
    requires
        is_plain_name(x),
        is_plain_name(y),
    ensures
        expression(between(x, "=="@, y)) == Ok::<ExprV, Seq<char>>(
            ExprV::Bin(BinOp::Eq, Box::new(ExprV::Var(x)), Box::new(ExprV::Var(y))),
        ),
        expression(between(x, "!="@, y)) == Ok::<ExprV, Seq<char>>(
            ExprV::Bin(BinOp::Ne, Box::new(ExprV::Var(x)), Box::new(ExprV::Var(y))),
        ),
        expression(between(x, ">="@, y)) == Ok::<ExprV, Seq<char>>(
            ExprV::Bin(BinOp::Ge, Box::new(ExprV::Var(x)), Box::new(ExprV::Var(y))),
        ),
        expression(between(x, "<="@, y)) == Ok::<ExprV, Seq<char>>(
            ExprV::Bin(BinOp::Le, Box::new(ExprV::Var(x)), Box::new(ExprV::Var(y))),
        ),
        expression(between(x, ">"@, y)) == Ok::<ExprV, Seq<char>>(
            ExprV::Bin(BinOp::Gt, Box::new(ExprV::Var(x)), Box::new(ExprV::Var(y))),
        ),
        expression(between(x, "<"@, y)) == Ok::<ExprV, Seq<char>>(
            ExprV::Bin(BinOp::Lt, Box::new(ExprV::Var(x)), Box::new(ExprV::Var(y))),
        ),
{
    reveal_strlit("==");
    reveal_strlit("!=");
    reveal_strlit(">=");
    reveal_strlit("<=");
    reveal_strlit(">");
    reveal_strlit("<");
    lemma_sign_between(x, "=="@, y, BinOp::Eq);
    lemma_sign_between(x, "!="@, y, BinOp::Ne);
    lemma_sign_between(x, ">="@, y, BinOp::Ge);
    lemma_sign_between(x, "<="@, y, BinOp::Le);
    lemma_sign_between(x, ">"@, y, BinOp::Gt);
    lemma_sign_between(x, "<"@, y, BinOp::Lt);
}

/// Behind a sum of two names nothing more is read.
proof fn lemma_summed(s: Seq<char>, e: ExprV)
    requires
        sum(s, 0, 1) == Ok::<(ExprV, nat), Seq<char>>((e, s.len())),
        peek(s, 0) != "not"@,
    ensures
        expression(s) == Ok::<ExprV, Seq<char>>(e),
{
    lemma_end(s);
    lemma_no_sign(s, s.len() as int);
    lemma_compared(s, e);
}

#[verifier::spinoff_prover]
#[verifier::rlimit(40)]
proof fn lemma_sum_between(x: Seq<char>, op: Seq<char>, y: Seq<char>, o: BinOp)
    requires
        is_plain_name(x),
        is_plain_name(y),
        op.len() == 1,
        op[0] == '~' && o == BinOp::Plus || op[0] == '+' && o == BinOp::Plus || op[0] == '-' && o == BinOp::Minus,
    ensures
        expression(between(x, op, y)) == Ok::<ExprV, Seq<char>>(bin(o, ExprV::Var(x), ExprV::Var(y))),
{
    reveal_strlit("~");
    reveal_strlit("+");
    reveal_strlit("-");
    let s = between(x, op, y);
    let a = x.len() as int;
    let b = a + 2;
    lemma_layout(x, op, y);
    lemma_peek(s, 0, x, 0, a);
    lemma_operand(s, 0, x, 0, a, 1);
    lemma_last(s, b as nat, y, b + 1, 1);
    lemma_end(s);
    lemma_sum_sign(s, a as nat, op, o);
    lemma_sum_steps(s, ExprV::Var(x), a as nat, b as nat, ExprV::Var(y), o);
}

proof fn lemma_sum_sign(s: Seq<char>, a: nat, op: Seq<char>, o: BinOp)
    requires
        a + 2 <= s.len(),
        spaced(s, a as int) == a + 1,
        s.subrange(a as int + 1, a as int + 2) == op,
        s[a as int + 1] == op[0],
        op.len() == 1,
        op[0] == '~' && o == BinOp::Plus || op[0] == '+' && o == BinOp::Plus || op[0] == '-' && o == BinOp::Minus,
    ensures
        sum_sign(s, a) == Some((o, (a + 2) as nat)),
{
    reveal_strlit("~");
    reveal_strlit("+");
    reveal_strlit("-");
    if op[0] != '~' {
        lemma_no_eat(s, a, "~"@);
    } else {
        assert(op =~= "~"@);
    }
    if op[0] != '+' {
        lemma_no_eat(s, a, "+"@);
    } else {
        assert(op =~= "+"@);
    }
    if op[0] == '-' {
        assert(op =~= "-"@);
    }
}

proof fn lemma_sum_steps(s: Seq<char>, x: ExprV, a: nat, b: nat, y: ExprV, o: BinOp)
    requires
        a < b <= s.len(),
        peek(s, 0) != "not"@,
        postfix(s, 0, 1) == Ok::<(ExprV, nat), Seq<char>>((x, a)),
        sum_sign(s, a) == Some((o, b)),
        postfix(s, b, 1) == Ok::<(ExprV, nat), Seq<char>>((y, s.len())),
    ensures
        expression(s) == Ok::<ExprV, Seq<char>>(bin(o, x, y)),
{
    lemma_end(s);
    let e = bin(o, x, y);
    assert(sum_more(s, e, s.len(), 1) == Ok::<(ExprV, nat), Seq<char>>((e, s.len())));
    assert(sum_more(s, x, a, 1) == sum_more(s, e, s.len(), 1));
    lemma_summed(s, e);
}

/// `+` and `~` put two names together, `-` takes the second from the first.
pub proof fn law_sums_are_read(x: Seq<char>, y: Seq<char>)
    requires
        is_plain_name(x),
        is_plain_name(y),
    ensures
        expression(between(x, "+"@, y)) == Ok::<ExprV, Seq<char>>(
            ExprV::Bin(BinOp::Plus, Box::new(ExprV::Var(x)), Box::new(ExprV::Var(y))),
        ),
        expression(between(x, "~"@, y)) == Ok::<ExprV, Seq<char>>(
            ExprV::Bin(BinOp::Plus, Box::new(ExprV::Var(x)), Box::new(ExprV::Var(y))),
        ),
        expression(between(x, "-"@, y)) == Ok::<ExprV, Seq<char>>(
            ExprV::Bin(BinOp::Minus, Box::new(ExprV::Var(x)), Box::new(ExprV::Var(y))),
        ),
{
    reveal_strlit("~");
    reveal_strlit("+");
    reveal_strlit("-");
    lemma_sum_between(x, "+"@, y, BinOp::Plus);
    lemma_sum_between(x, "~"@, y, BinOp::Plus);
    lemma_sum_between(x, "-"@, y, BinOp::Minus);
}

/// `in` between two names asks whether the second holds the first.
#[verifier::spinoff_prover]
#[verifier::rlimit(40)]
pub proof fn law_membership_is_read(x: Seq<char>, y: Seq<char>)
    requires
        is_plain_name(x),
        is_plain_name(y),
    ensures
        expression(between(x, "in"@, y)) == Ok::<ExprV, Seq<char>>(
            ExprV::Bin(BinOp::In, Box::new(ExprV::Var(x)), Box::new(ExprV::Var(y))),
        ),
{
    reveal_strlit("is");
    reveal_strlit("not");
    reveal_strlit("in");
    let s = between(x, "in"@, y);
    let a = x.len() as int;
    let b = a + 3;
    assert("in"@[0] == 'i' && "in"@[1] == 'n' && "is"@[1] == 's' && "not"@.len() == 3);
    lemma_layout(x, "in"@, y);
    lemma_peek(s, 0, x, 0, a);
    lemma_peek(s, a, "in"@, a + 1, b);
    lemma_sum(s, 0, x, 0, a, 1);
    lemma_no_sign(s, a);
    lemma_last(s, b as nat, y, b + 1, 1);
    lemma_compared(s, bin(BinOp::In, ExprV::Var(x), ExprV::Var(y)));
}

/// `not` before a name turns it round.
#[verifier::spinoff_prover]
#[verifier::rlimit(40)]
pub proof fn law_negation_is_read(x: Seq<char>)
    requires
        is_plain_name(x),
    ensures
        expression("not "@ + x) == Ok::<ExprV, Seq<char>>(ExprV::Not(Box::new(ExprV::Var(x)))),
{
    reveal_strlit("not");
    reveal_strlit("not ");
    let s = "not "@ + x;
    assert(is_word(x[0]));
    assert(s[0] == 'n' && s[1] == 'o' && s[2] == 't' && s[3] == ' ' && s[4] == x[0]);
    assert(s.subrange(0, 3) =~= "not"@);
    assert(s.subrange(4, s.len() as int) =~= x);
    assert(spaced(s, 4) == 4);
    assert(spaced(s, 3) == 4);
    assert(spaced(s, 0) == 0);
    lemma_peek(s, 0, "not"@, 0, 3);
    lemma_last(s, 3, x, 4, 2);
    lemma_end(s);
    let e = negated(ExprV::Var(x));
    assert(negation(s, 0, 1) == Ok::<(ExprV, nat), Seq<char>>((e, s.len())));
    assert(all_more(s, e, s.len(), 1) == Ok::<(ExprV, nat), Seq<char>>((e, s.len())));
    assert(any_more(s, e, s.len(), 1) == Ok::<(ExprV, nat), Seq<char>>((e, s.len())));
    lemma_whole(s, e);
}

/// A dot before a word takes the field of that name, a bar puts the value through the filter of
/// that name.
pub proof fn law_fields_and_filters_are_read(x: Seq<char>, y: Seq<char>)
    requires
        is_plain_name(x),
        y.len() > 0,
        forall|k: int| 0 <= k < y.len() ==> is_word(#[trigger] y[k]),
    ensures
        expression(x + seq!['.'] + y) == Ok::<ExprV, Seq<char>>(
            ExprV::Index(Box::new(ExprV::Var(x)), Box::new(ExprV::Lit(JsonV::Str(y)))),
        ),
        expression(x + seq!['|'] + y) == Ok::<ExprV, Seq<char>>(
            ExprV::Filter(Box::new(ExprV::Var(x)), y, Seq::empty()),
        ),
{
    lemma_joined(x, '.', y);
    lemma_joined(x, '|', y);
}

#[verifier::spinoff_prover]
#[verifier::rlimit(40)]
proof fn lemma_joined(x: Seq<char>, c: char, y: Seq<char>)
    requires
        is_plain_name(x),
        y.len() > 0,
        forall|k: int| 0 <= k < y.len() ==> is_word(#[trigger] y[k]),
        c == '.' || c == '|',
    ensures
        expression(x + seq![c] + y) == Ok::<ExprV, Seq<char>>(
            if c == '.' {
                ExprV::Index(Box::new(ExprV::Var(x)), Box::new(ExprV::Lit(JsonV::Str(y))))
            } else {
                ExprV::Filter(Box::new(ExprV::Var(x)), y, Seq::empty())
            },
        ),
{
    reveal_strlit("[");
    reveal_strlit(".");
    reveal_strlit("|");
    reveal_strlit("(");
    let s = x + seq![c] + y;
    let a = x.len() as int;
    assert(is_word(x[0]) && is_word(y[0]));
    assert(s[0] == x[0] && s[a] == c && s[a + 1] == y[0]);
    assert(s.subrange(0, a) =~= x);
    assert(s.subrange(a + 1, s.len() as int) =~= y);
    assert(spaced(s, 0) == 0 && spaced(s, a) == a && spaced(s, a + 1) == a + 1);
    lemma_peek(s, 0, x, 0, a);
    lemma_peek(s, a + 1, y, a + 1, s.len() as int);
    lemma_name(s, 0, x, 0, a, 1);
    lemma_end(s);
    lemma_no_eat(s, a as nat, "["@);
    if c != '.' {
        lemma_no_eat(s, a as nat, "."@);
        assert(s.subrange(a, a + 1) =~= "|"@);
    } else {
        assert(s.subrange(a, a + 1) =~= "."@);
    }
    lemma_no_eat(s, s.len(), "("@);
    lemma_no_eat(s, s.len(), "["@);
    lemma_no_eat(s, s.len(), "."@);
    lemma_no_eat(s, s.len(), "|"@);
    let e = if c == '.' {
        ExprV::Index(Box::new(ExprV::Var(x)), Box::new(ExprV::Lit(JsonV::Str(y))))
    } else {
        ExprV::Filter(Box::new(ExprV::Var(x)), y, Seq::empty())
    };
    assert(postfix_more(s, e, s.len(), 1) == Ok::<(ExprV, nat), Seq<char>>((e, s.len())));
    assert(postfix_more(s, ExprV::Var(x), a as nat, 1) == postfix_more(s, e, s.len(), 1));
    assert(postfix(s, 0, 1) == Ok::<(ExprV, nat), Seq<char>>((e, s.len())));
    assert(sum_more(s, e, s.len(), 1) == Ok::<(ExprV, nat), Seq<char>>((e, s.len())));
    lemma_summed(s, e);
}

proof fn lemma_any(s: Seq<char>, i: nat, w: Seq<char>, p: int, e: int, d: nat)
    requires
        comes_next(s, i as int, w, p, e),
        is_plain_name(w),
        ends_comparison(s, e),
        peek(s, e) != "and"@,
        peek(s, e) != "or"@,
    ensures
        any_of(s, i, d) == Ok::<(ExprV, nat), Seq<char>>((ExprV::Var(w), e as nat)),
{
    lemma_comparison(s, i, w, p, e, d);
    assert(all_more(s, ExprV::Var(w), e as nat, d) == Ok::<(ExprV, nat), Seq<char>>((ExprV::Var(w), e as nat)));
    assert(all_of(s, i, d) == Ok::<(ExprV, nat), Seq<char>>((ExprV::Var(w), e as nat)));
}

/// What comes before `if` or `else` ends there.
proof fn lemma_before_choice(s: Seq<char>, e: int, w: Seq<char>, q: int)
    requires
        comes_next(s, e, w, e + 1, q),
        w == "if"@ || w == "else"@,
    ensures
        ends_comparison(s, e),
        peek(s, e) != "and"@,
        peek(s, e) != "or"@,
        eat_word(s, e as nat, w) == Some(q as nat),
{
    reveal_strlit("is");
    reveal_strlit("not");
    reveal_strlit("in");
    reveal_strlit("and");
    reveal_strlit("or");
    reveal_strlit("if");
    reveal_strlit("else");
    assert("if"@[1] == 'f' && "is"@[1] == 's' && "in"@[1] == 'n' && "or"@[0] == 'o' && "if"@[0] == 'i');
    assert("if"@.len() == 2 && "else"@.len() == 4 && "is"@.len() == 2 && "in"@.len() == 2 && "or"@.len() == 2);
    assert("and"@.len() == 3 && "not"@.len() == 3 && "else"@[0] == 'e');
    assert(s[e + 1] == s.subrange(e + 1, q)[0]);
    lemma_peek(s, e, w, e + 1, q);
}

/// `x if c else y` is `x` where `c` holds and `y` where it does not.
#[verifier::spinoff_prover]
#[verifier::rlimit(40)]
pub proof fn law_choices_are_read(x: Seq<char>, c: Seq<char>, y: Seq<char>)
    requires
        is_plain_name(x),
        is_plain_name(c),
        is_plain_name(y),
    ensures
        expression(between(x, "if"@, between(c, "else"@, y))) == Ok::<ExprV, Seq<char>>(
            ExprV::Cond(Box::new(ExprV::Var(c)), Box::new(ExprV::Var(x)), Box::new(ExprV::Var(y))),
        ),
{
    let s = between(x, "if"@, between(c, "else"@, y));
    let a = x.len() as int;
    let k = a + 3;
    let m = k + 1 + c.len();
    let n = m + 5;
    lemma_choice_layout(x, c, y);
    lemma_choice_read(s, x, a, k, c, m, n, y);
}

#[verifier::spinoff_prover]
#[verifier::rlimit(40)]
proof fn lemma_choice_read(s: Seq<char>, x: Seq<char>, a: int, k: int, c: Seq<char>, m: int, n: int, y: Seq<char>)
    requires
        is_plain_name(x),
        is_plain_name(c),
        is_plain_name(y),
        comes_next(s, 0, x, 0, a),
        comes_next(s, a, "if"@, a + 1, k),
        comes_next(s, k, c, k + 1, m),
        comes_next(s, m, "else"@, m + 1, n),
        comes_next(s, n, y, n + 1, s.len() as int),
    ensures
        expression(s) == Ok::<ExprV, Seq<char>>(
            ExprV::Cond(Box::new(ExprV::Var(c)), Box::new(ExprV::Var(x)), Box::new(ExprV::Var(y))),
        ),
{
    let (xe, ce, ye) = (ExprV::Var(x), ExprV::Var(c), ExprV::Var(y));
    assert(any_of(s, 0, 1) == Ok::<(ExprV, nat), Seq<char>>((xe, a as nat)) && eat_word(s, a as nat, "if"@) == Some(k as nat)) by {
        lemma_before_choice(s, a, "if"@, k);
        lemma_any(s, 0, x, 0, a, 1);
    }
    assert(any_of(s, k as nat, 1) == Ok::<(ExprV, nat), Seq<char>>((ce, m as nat)) && eat_word(s, m as nat, "else"@) == Some(
        n as nat,
    )) by {
        lemma_before_choice(s, m, "else"@, n);
        lemma_any(s, k as nat, c, k + 1, m, 1);
    }
    assert(any_of(s, n as nat, 2) == Ok::<(ExprV, nat), Seq<char>>((ye, s.len()))) by {
        lemma_last(s, n as nat, y, n + 1, 2);
    }
    lemma_choice_steps(s, xe, a as nat, k as nat, ce, m as nat, n as nat, ye);
}

proof fn lemma_choice_layout(x: Seq<char>, c: Seq<char>, y: Seq<char>)
    requires
        is_plain_name(x),
        is_plain_name(c),
        is_plain_name(y),
    ensures
        ({
            let s = between(x, "if"@, between(c, "else"@, y));
            let a = x.len() as int;
            let k = a + 3;
            let m = k + 1 + c.len();
            let n = m + 5;
            &&& s.len() == n + 1 + y.len()
            &&& comes_next(s, 0, x, 0, a)
            &&& comes_next(s, a, "if"@, a + 1, k)
            &&& comes_next(s, k, c, k + 1, m)
            &&& comes_next(s, m, "else"@, m + 1, n)
            &&& comes_next(s, n, y, n + 1, s.len() as int)
        }),
{
    reveal_strlit("if");
    reveal_strlit("else");
    let t = between(c, "else"@, y);
    let s = between(x, "if"@, t);
    let a = x.len() as int;
    let k = a + 3;
    let m = k + 1 + c.len();
    let n = m + 5;
    lemma_layout(c, "else"@, y);
    assert(is_word(x[0]) && is_word(c[0]) && is_word(y[0]));
    assert(s[0] == x[0] && s[a] == ' ' && s[a + 1] == 'i' && s[k] == ' ');
    assert forall|q: int| 0 <= q < t.len() implies #[trigger] s[k + 1 + q] == t[q] by {}
    assert(t[0] == c[0] && t[c.len() as int] == ' ' && t[c.len() as int + 1] == 'e' && t[c.len() as int + 5] == ' ' && t[c.len() as int + 6] == y[0]);
    assert(s[k + 1 + 0] == t[0]);
    assert(s[k + 1 + c.len()] == t[c.len() as int]);
    assert(s[k + 1 + (c.len() + 1)] == t[c.len() as int + 1]);
    assert(s[k + 1 + (c.len() + 5)] == t[c.len() as int + 5]);
    assert(s[k + 1 + (c.len() + 6)] == t[c.len() as int + 6]);
    assert(s.subrange(0, a) =~= x);
    assert(s.subrange(a + 1, k) =~= "if"@);
    assert(s.subrange(k + 1, m) =~= c);
    assert(s.subrange(m + 1, n) =~= "else"@);
    assert(s.subrange(n + 1, s.len() as int) =~= y);
    assert(spaced(s, 0) == 0);
    assert(spaced(s, a + 1) == a + 1);
    assert(spaced(s, a) == a + 1);
    assert(spaced(s, k + 1) == k + 1);
    assert(spaced(s, k) == k + 1);
    assert(spaced(s, m + 1) == m + 1);
    assert(spaced(s, m) == m + 1);
    assert(spaced(s, n + 1) == n + 1);
    assert(spaced(s, n) == n + 1);
}

proof fn lemma_choice_steps(s: Seq<char>, x: ExprV, a: nat, k: nat, c: ExprV, m: nat, n: nat, y: ExprV)
    requires
        a <= k <= m <= n <= s.len(),
        any_of(s, 0, 1) == Ok::<(ExprV, nat), Seq<char>>((x, a)),
        eat_word(s, a, "if"@) == Some(k),
        any_of(s, k, 1) == Ok::<(ExprV, nat), Seq<char>>((c, m)),
        eat_word(s, m, "else"@) == Some(n),
        any_of(s, n, 2) == Ok::<(ExprV, nat), Seq<char>>((y, s.len())),
    ensures
        expression(s) == Ok::<ExprV, Seq<char>>(ExprV::Cond(Box::new(c), Box::new(x), Box::new(y))),
{
    lemma_end(s);
    assert(conditional(s, n, 2) == Ok::<(ExprV, nat), Seq<char>>((y, s.len())));
    assert(cond(s, n, 1) == Ok::<(ExprV, nat), Seq<char>>((y, s.len())));
}

/// `is` before the name of a test asks whether the value passes it.
#[verifier::spinoff_prover]
#[verifier::rlimit(40)]
pub proof fn law_tests_are_read(x: Seq<char>, y: Seq<char>)
    requires
        is_plain_name(x),
        y == "defined"@ || y == "none"@ || y == "string"@ || y == "mapping"@ || y == "sequence"@ || y == "iterable"@,
    ensures
        expression(between(x, "is"@, y)) == Ok::<ExprV, Seq<char>>(
            ExprV::Bin(BinOp::Is, Box::new(ExprV::Var(x)), Box::new(ExprV::Lit(JsonV::Str(y)))),
        ),
{
    let s = between(x, "is"@, y);
    let a = x.len() as int;
    let b = a + 3;
    lemma_test_words(y);
    assert("is"@.len() == 2 && "is"@[0] == 'i' && "is"@[1] == 's') by {
        reveal_strlit("is");
    }
    lemma_layout(x, "is"@, y);
    lemma_peek(s, 0, x, 0, a);
    lemma_peek(s, a, "is"@, a + 1, b);
    lemma_peek(s, b, y, b + 1, s.len() as int);
    lemma_sum(s, 0, x, 0, a, 1);
    lemma_compared(s, bin(BinOp::Is, ExprV::Var(x), ExprV::Lit(JsonV::Str(y))));
}

proof fn lemma_test_words(y: Seq<char>)
    requires
        y == "defined"@ || y == "none"@ || y == "string"@ || y == "mapping"@ || y == "sequence"@ || y == "iterable"@,
    ensures
        y.len() > 3,
        forall|k: int| 0 <= k < y.len() ==> is_word(#[trigger] y[k]),
        y != "not"@,
{
    reveal_strlit("defined");
    reveal_strlit("none");
    reveal_strlit("string");
    reveal_strlit("mapping");
    reveal_strlit("sequence");
    reveal_strlit("iterable");
    reveal_strlit("not");
    assert("not"@.len() == 3);
}

} // verus!
