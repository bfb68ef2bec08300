//! How the tags of a template make conditionals, loops and bindings.

use vstd::prelude::*;
use crate::chat_block::{binding, block, branches, ends, loop_head, tag_at, tag_rest, Until};
use crate::chat_expr::{expression, is_conditional, is_name, is_word, spaced};
use crate::chat_lex::PieceV;
use crate::chat_tree::{ExprV, NodeV};
use crate::phrase_laws::{between, comes_next, is_plain_name, lemma_end, lemma_last, lemma_whole};
use crate::text::{
    after_blank, before_blank, first_at, first_word, is_at, lemma_first_at, strip_end, strip_start, trimmed, whitespace, word_end, Blank,
};

verus! {

/// The parts of a block.
pub type Built = Result<(Seq<NodeV>, nat), Seq<char>>;

proof fn lemma_word_end_at(s: Seq<char>, i: int, e: int)
    requires
        0 <= i <= e <= s.len(),
        forall|k: int| i <= k < e ==> !whitespace(#[trigger] s[k]),
        e == s.len() || whitespace(s[e]),
    ensures
        word_end(s, i) == e,
    decreases e - i,
{
    if i < e {
        assert(!whitespace(s[i]));
        lemma_word_end_at(s, i + 1, e);
    }
}

/// Text that neither begins nor ends with whitespace.
pub open spec fn is_tight(s: Seq<char>) -> bool {
    s.len() > 0 && !whitespace(s[0]) && !whitespace(s.last())
}

proof fn lemma_trims(s: Seq<char>)
    requires
        is_tight(s),
    ensures
        trimmed(s) == s,
        trimmed(seq![' '] + s) == s,
        trimmed(s + seq![' ']) == s,
{
    assert(after_blank(s, 0, Blank::Space) == 0);
    assert(strip_start(s, Blank::Space) =~= s);
    assert(before_blank(s, s.len() as int, Blank::Space) == s.len());
    assert(strip_end(s, Blank::Space) =~= s);
    let l = seq![' '] + s;
    assert(l[0] == ' ' && l[1] == s[0]);
    assert(after_blank(l, 1, Blank::Space) == 1);
    assert(after_blank(l, 0, Blank::Space) == 1);
    assert(strip_start(l, Blank::Space) =~= s);
    let r = s + seq![' '];
    let n = s.len() as int;
    assert(r[0] == s[0] && r[n] == ' ' && r[n - 1] == s.last());
    assert(after_blank(r, 0, Blank::Space) == 0);
    assert(strip_start(r, Blank::Space) =~= r);
    assert(before_blank(r, n, Blank::Space) == n);
    assert(before_blank(r, n + 1, Blank::Space) == n);
    assert(strip_end(r, Blank::Space) =~= s);
}

/// A tag of a word and what stands behind it.
pub open spec fn worded(w: Seq<char>, rest: Seq<char>) -> Seq<char> {
    w + (seq![' '] + rest)
}

proof fn lemma_worded(w: Seq<char>, rest: Seq<char>)
    requires
        w.len() > 0,
        forall|k: int| 0 <= k < w.len() ==> is_word(#[trigger] w[k]),
        is_tight(rest),
    ensures
        first_word(worded(w, rest)) == w,
        tag_rest(worded(w, rest), w) == rest,
{
    let s = worded(w, rest);
    assert(is_word(w[0]));
    assert(s[0] == w[0] && s[w.len() as int] == ' ');
    assert(after_blank(s, 0, Blank::Space) == 0);
    assert(strip_start(s, Blank::Space) =~= s);
    assert forall|k: int| 0 <= k < w.len() implies !whitespace(#[trigger] s[k]) by {
        assert(s[k] == w[k]);
    }
    lemma_word_end_at(s, 0, w.len() as int);
    assert(s.subrange(0, w.len() as int) =~= w);
    assert(s.subrange(w.len() as int, s.len() as int) =~= seq![' '] + rest);
    lemma_trims(rest);
}

proof fn lemma_bare(w: Seq<char>)
    requires
        w.len() > 0,
        forall|k: int| 0 <= k < w.len() ==> is_word(#[trigger] w[k]),
    ensures
        first_word(w) == w,
{
    assert(is_word(w[0]));
    assert(after_blank(w, 0, Blank::Space) == 0);
    assert(strip_start(w, Blank::Space) =~= w);
    assert forall|k: int| 0 <= k < w.len() implies !whitespace(#[trigger] w[k]) by {
        assert(is_word(w[k]));
    }
    lemma_word_end_at(w, 0, w.len() as int);
    assert(w.subrange(0, w.len() as int) =~= w);
}

/// A name alone is an expression, with or without a space before it.
#[verifier::spinoff_prover]
#[verifier::rlimit(40)]
proof fn lemma_name_alone(x: Seq<char>)
    requires
        is_plain_name(x),
    ensures
        is_tight(x),
        is_name(x),
        expression(x) == Ok::<ExprV, Seq<char>>(ExprV::Var(x)),
        expression(seq![' '] + x) == Ok::<ExprV, Seq<char>>(ExprV::Var(x)),
        !is_conditional(x),
{
    assert(is_word(x[0]) && is_word(x[x.len() - 1]));
    assert(spaced(x, 0) == 0);
    assert(x.subrange(0, x.len() as int) =~= x);
    assert(comes_next(x, 0, x, 0, x.len() as int));
    lemma_last(x, 0, x, 0, 1);
    lemma_whole(x, ExprV::Var(x));
    lemma_end(x);
    let l = seq![' '] + x;
    assert(l[0] == ' ' && l[1] == x[0]);
    assert(spaced(l, 1) == 1);
    assert(spaced(l, 0) == 1);
    assert(l.subrange(1, l.len() as int) =~= x);
    assert(comes_next(l, 0, x, 1, l.len() as int));
    lemma_last(l, 0, x, 1, 1);
    lemma_whole(l, ExprV::Var(x));
}

/// The words of tags are words, and told apart.
proof fn lemma_tag_words()
    ensures
        first_word("else"@) == "else"@ && first_word("endif"@) == "endif"@ && first_word("endfor"@) == "endfor"@,
        "if"@.len() == 2 && "for"@.len() == 3 && "set"@.len() == 3 && "elif"@.len() == 4,
        forall|k: int| 0 <= k < 2 ==> is_word(#[trigger] "if"@[k]),
        forall|k: int| 0 <= k < 3 ==> is_word(#[trigger] "for"@[k]),
        forall|k: int| 0 <= k < 3 ==> is_word(#[trigger] "set"@[k]),
        forall|k: int| 0 <= k < 4 ==> is_word(#[trigger] "elif"@[k]),
        "else"@ != "elif"@ && "endif"@ != "elif"@ && "endif"@ != "else"@ && "endfor"@ != "else"@,
        "if"@ != "elif"@ && "if"@ != "else"@ && "if"@ != "endif"@,
        "for"@ != "if"@ && "set"@ != "if"@ && "set"@ != "for"@,
{
    reveal_strlit("if");
    reveal_strlit("for");
    reveal_strlit("set");
    reveal_strlit("elif");
    reveal_strlit("else");
    reveal_strlit("endif");
    reveal_strlit("endfor");
    lemma_bare("else"@);
    lemma_bare("endif"@);
    lemma_bare("endfor"@);
    assert("else"@[1] == 'l' && "else"@[2] == 's' && "elif"@[2] == 'i');
    assert("if"@.len() == 2 && "for"@.len() == 3 && "endif"@.len() == 5 && "endfor"@.len() == 6 && "else"@.len() == 4);
    assert("for"@[0] == 'f' && "set"@[0] == 's');
}

/// A text and then the tag that ends the block.
proof fn lemma_body(p: Seq<PieceV>, i: nat, t: Seq<char>, w: Seq<char>, until: Until)
    requires
        i + 1 < p.len(),
        p[i as int] == PieceV::Text(t),
        t.len() > 0,
        p[i as int + 1] matches PieceV::Tag(s, _, _) && first_word(s) == w,
        ends(until, w),
    ensures
        block(p, Seq::empty(), i, until) == Ok::<(Seq<NodeV>, nat), Seq<char>>((seq![NodeV::Text(t)], i + 1)),
{
    let one = Seq::<NodeV>::empty().push(NodeV::Text(t));
    assert(block(p, one, i + 1, until) == Ok::<(Seq<NodeV>, nat), Seq<char>>((one, i + 1)));
    assert(one =~= seq![NodeV::Text(t)]);
}

/// `if` and `else` make a conditional: the first text where the condition holds, the second
/// where it does not.
#[verifier::spinoff_prover]
#[verifier::rlimit(40)]
pub proof fn law_conditionals_are_built(c: Seq<char>, a: Seq<char>, b: Seq<char>, l: bool, r: bool)
    requires
        is_plain_name(c),
        a.len() > 0,
        b.len() > 0,
    ensures
        block(
            seq![
                PieceV::Tag(worded("if"@, c), l, r),
                PieceV::Text(a),
                PieceV::Tag("else"@, l, r),
                PieceV::Text(b),
                PieceV::Tag("endif"@, l, r),
            ],
            Seq::empty(),
            0,
            Until::End,
        ) == Built::Ok((seq![NodeV::If(seq![(ExprV::Var(c), seq![NodeV::Text(a)])], seq![NodeV::Text(b)])], 5)),
{
    let p = seq![
        PieceV::Tag(worded("if"@, c), l, r),
        PieceV::Text(a),
        PieceV::Tag("else"@, l, r),
        PieceV::Text(b),
        PieceV::Tag("endif"@, l, r),
    ];
    lemma_tag_words();
    lemma_name_alone(c);
    lemma_worded("if"@, c);
    lemma_body(p, 1, a, "else"@, Until::Branch);
    lemma_body(p, 3, b, "endif"@, Until::Endif);
    let now = Seq::<(ExprV, Seq<NodeV>)>::empty().push((ExprV::Var(c), seq![NodeV::Text(a)]));
    assert(now =~= seq![(ExprV::Var(c), seq![NodeV::Text(a)])]);
    let n = NodeV::If(now, seq![NodeV::Text(b)]);
    assert(branches(p, Seq::empty(), ExprV::Var(c), 1) == Ok::<(NodeV, nat), Seq<char>>((n, 5)));
    let all = Seq::<NodeV>::empty().push(n);
    assert(all =~= seq![n]);
    assert(block(p, all, 5, Until::End) == Built::Ok((all, 5)));
}

/// Without `else` nothing stands where the condition does not hold.
#[verifier::spinoff_prover]
#[verifier::rlimit(40)]
pub proof fn law_conditionals_may_lack_an_else(c: Seq<char>, a: Seq<char>, l: bool, r: bool)
    requires
        is_plain_name(c),
        a.len() > 0,
    ensures
        block(
            seq![PieceV::Tag(worded("if"@, c), l, r), PieceV::Text(a), PieceV::Tag("endif"@, l, r)],
            Seq::empty(),
            0,
            Until::End,
        ) == Built::Ok((seq![NodeV::If(seq![(ExprV::Var(c), seq![NodeV::Text(a)])], Seq::empty())], 3)),
{
    let p = seq![PieceV::Tag(worded("if"@, c), l, r), PieceV::Text(a), PieceV::Tag("endif"@, l, r)];
    lemma_tag_words();
    lemma_name_alone(c);
    lemma_worded("if"@, c);
    lemma_body(p, 1, a, "endif"@, Until::Branch);
    let now = Seq::<(ExprV, Seq<NodeV>)>::empty().push((ExprV::Var(c), seq![NodeV::Text(a)]));
    assert(now =~= seq![(ExprV::Var(c), seq![NodeV::Text(a)])]);
    let n = NodeV::If(now, Seq::empty());
    assert(branches(p, Seq::empty(), ExprV::Var(c), 1) == Ok::<(NodeV, nat), Seq<char>>((n, 3)));
    let all = Seq::<NodeV>::empty().push(n);
    assert(all =~= seq![n]);
    assert(block(p, all, 3, Until::End) == Built::Ok((all, 3)));
}

/// `elif` adds a branch behind those before it.
#[verifier::spinoff_prover]
#[verifier::rlimit(40)]
pub proof fn law_branches_keep_their_order(c: Seq<char>, a: Seq<char>, d: Seq<char>, b: Seq<char>, l: bool, r: bool)
    requires
        is_plain_name(c),
        is_plain_name(d),
        a.len() > 0,
        b.len() > 0,
    ensures
        block(
            seq![
                PieceV::Tag(worded("if"@, c), l, r),
                PieceV::Text(a),
                PieceV::Tag(worded("elif"@, d), l, r),
                PieceV::Text(b),
                PieceV::Tag("endif"@, l, r),
            ],
            Seq::empty(),
            0,
            Until::End,
        ) == Built::Ok(
            (
                seq![
                    NodeV::If(
                        seq![(ExprV::Var(c), seq![NodeV::Text(a)]), (ExprV::Var(d), seq![NodeV::Text(b)])],
                        Seq::empty(),
                    ),
                ],
                5,
            ),
        ),
{
    let p = seq![
        PieceV::Tag(worded("if"@, c), l, r),
        PieceV::Text(a),
        PieceV::Tag(worded("elif"@, d), l, r),
        PieceV::Text(b),
        PieceV::Tag("endif"@, l, r),
    ];
    lemma_tag_words();
    lemma_name_alone(c);
    lemma_name_alone(d);
    lemma_worded("if"@, c);
    lemma_worded("elif"@, d);
    lemma_body(p, 1, a, "elif"@, Until::Branch);
    lemma_body(p, 3, b, "endif"@, Until::Branch);
    let now = Seq::<(ExprV, Seq<NodeV>)>::empty().push((ExprV::Var(c), seq![NodeV::Text(a)]));
    let both = now.push((ExprV::Var(d), seq![NodeV::Text(b)]));
    assert(both =~= seq![(ExprV::Var(c), seq![NodeV::Text(a)]), (ExprV::Var(d), seq![NodeV::Text(b)])]);
    let n = NodeV::If(both, Seq::empty());
    assert(branches(p, now, ExprV::Var(d), 3) == Ok::<(NodeV, nat), Seq<char>>((n, 5)));
    assert(branches(p, Seq::empty(), ExprV::Var(c), 1) == Ok::<(NodeV, nat), Seq<char>>((n, 5)));
    let all = Seq::<NodeV>::empty().push(n);
    assert(all =~= seq![n]);
    assert(block(p, all, 5, Until::End) == Built::Ok((all, 5)));
}

proof fn lemma_found(s: Seq<char>, p: Seq<char>, from: int, at: int)
    requires
        0 <= from <= at,
        is_at(s, at, p),
        forall|k: int| from <= k < at ==> !is_at(s, k, p),
    ensures
        first_at(s, from, p) == Some(at),
    decreases at - from,
{
    if from < at {
        lemma_found(s, p, from + 1, at);
    }
}

proof fn lemma_loop_layout(x: Seq<char>, y: Seq<char>)
    requires
        is_plain_name(x),
        is_plain_name(y),
    ensures
        ({
            let s = between(x, "in"@, y);
            let a = x.len() as int;
            &&& is_tight(s)
            &&& first_at(s, 0, " in "@) == Some(a)
            &&& " in "@.len() == 4
            &&& s.subrange(0, a) == x
            &&& s.subrange(a + 4, s.len() as int) == y
            &&& !crate::text::has(x, ","@)
        }),
{
    reveal_strlit("in");
    reveal_strlit(" in ");
    reveal_strlit(",");
    let s = between(x, "in"@, y);
    let a = x.len() as int;
    assert(is_word(x[0]) && is_word(y[y.len() - 1]));
    assert(s[0] == x[0] && s.last() == y.last());
    assert(s[a] == ' ' && s[a + 1] == 'i' && s[a + 2] == 'n' && s[a + 3] == ' ');
    assert(s.subrange(a, a + 4) =~= " in "@);
    assert forall|k: int| 0 <= k < a implies !is_at(s, k, " in "@) by {
        assert(is_word(x[k]) && s[k] == x[k]);
        if is_at(s, k, " in "@) {
            assert(s.subrange(k, k + 4)[0] == s[k]);
        }
    }
    lemma_found(s, " in "@, 0, a);
    assert(s.subrange(0, a) =~= x);
    assert(s.subrange(a + 4, s.len() as int) =~= y);
    lemma_first_at(x, 0, ","@);
    if crate::text::has(x, ","@) {
        let k = first_at(x, 0, ","@)->Some_0;
        assert(x.subrange(k, k + 1)[0] == x[k]);
        assert(is_word(x[k]));
    }
}

#[verifier::spinoff_prover]
#[verifier::rlimit(40)]
proof fn lemma_loop_head(x: Seq<char>, y: Seq<char>)
    requires
        is_plain_name(x),
        is_plain_name(y),
    ensures
        is_tight(between(x, "in"@, y)),
        loop_head(between(x, "in"@, y)) == Ok::<(Seq<char>, ExprV), Seq<char>>((x, ExprV::Var(y))),
{
    lemma_loop_layout(x, y);
    assert(is_name(x)) by {
        lemma_name_alone(x);
    }
    assert(trimmed(x) == x) by {
        lemma_name_alone(x);
        lemma_trims(x);
    }
    assert(expression(y) == Ok::<ExprV, Seq<char>>(ExprV::Var(y)) && !is_conditional(y)) by {
        lemma_name_alone(y);
    }
}

proof fn lemma_loop_step(p: Seq<PieceV>, src: Seq<char>, head: Seq<char>, x: Seq<char>, y: ExprV, body: Seq<NodeV>, j: nat)
    requires
        p.len() == j + 1,
        p[0] matches PieceV::Tag(s, _, _) && s == src,
        first_word(src) == "for"@,
        tag_rest(src, "for"@) == head,
        loop_head(head) == Ok::<(Seq<char>, ExprV), Seq<char>>((x, y)),
        block(p, Seq::empty(), 1, Until::Endfor) == Built::Ok((body, j)),
        tag_at(p, j) == Some("endfor"@),
        j > 0,
    ensures
        block(p, Seq::empty(), 0, Until::End) == Built::Ok((seq![NodeV::For { var: x, iter: y, body }], p.len())),
{
    lemma_tag_words();
    let all = Seq::<NodeV>::empty().push(NodeV::For { var: x, iter: y, body });
    assert(all =~= seq![NodeV::For { var: x, iter: y, body }]);
    assert(block(p, all, p.len(), Until::End) == Built::Ok((all, p.len())));
}

#[verifier::spinoff_prover]
#[verifier::rlimit(40)]
proof fn lemma_loop_read(p: Seq<PieceV>, head: Seq<char>, x: Seq<char>, y: ExprV, a: Seq<char>)
    requires
        p.len() == 3,
        p[0] matches PieceV::Tag(s, _, _) && s == worded("for"@, head),
        p[1] == PieceV::Text(a),
        p[2] matches PieceV::Tag(e, _, _) && e == "endfor"@,
        a.len() > 0,
        is_tight(head),
        loop_head(head) == Ok::<(Seq<char>, ExprV), Seq<char>>((x, y)),
    ensures
        block(p, Seq::empty(), 0, Until::End) == Built::Ok(
            (seq![NodeV::For { var: x, iter: y, body: seq![NodeV::Text(a)] }], 3),
        ),
{
    assert(first_word(worded("for"@, head)) == "for"@ && tag_rest(worded("for"@, head), "for"@) == head) by {
        lemma_tag_words();
        lemma_worded("for"@, head);
    }
    assert(block(p, Seq::empty(), 1, Until::Endfor) == Built::Ok((seq![NodeV::Text(a)], 2))) by {
        lemma_tag_words();
        lemma_body(p, 1, a, "endfor"@, Until::Endfor);
    }
    lemma_loop_step(p, worded("for"@, head), head, x, y, seq![NodeV::Text(a)], 2);
}

/// `for x in y` runs over `y`, and calls each item `x`.
#[verifier::spinoff_prover]
#[verifier::rlimit(40)]
pub proof fn law_loops_are_built(p: Seq<PieceV>, x: Seq<char>, y: Seq<char>, a: Seq<char>)
    requires
        is_plain_name(x),
        is_plain_name(y),
        a.len() > 0,
        p.len() == 3,
        p[0] matches PieceV::Tag(s, _, _) && s == worded("for"@, between(x, "in"@, y)),
        p[1] == PieceV::Text(a),
        p[2] matches PieceV::Tag(e, _, _) && e == "endfor"@,
    ensures
        block(p, Seq::empty(), 0, Until::End) == Built::Ok(
            (seq![NodeV::For { var: x, iter: ExprV::Var(y), body: seq![NodeV::Text(a)] }], 3),
        ),
{
    let head = between(x, "in"@, y);
    assert(is_tight(head) && loop_head(head) == Ok::<(Seq<char>, ExprV), Seq<char>>((x, ExprV::Var(y)))) by {
        lemma_loop_head(x, y);
    }
    lemma_loop_read(p, head, x, ExprV::Var(y), a);
}

proof fn lemma_binding_layout(x: Seq<char>, y: Seq<char>)
    requires
        is_plain_name(x),
        is_plain_name(y),
    ensures
        ({
            let s = between(x, "="@, y);
            let a = x.len() as int;
            &&& is_tight(s)
            &&& first_at(s, 0, "="@) == Some(a + 1)
            &&& "="@.len() == 1
            &&& s.subrange(0, a + 1) == x + seq![' ']
            &&& s.subrange(a + 2, s.len() as int) == seq![' '] + y
        }),
{
    reveal_strlit("=");
    let s = between(x, "="@, y);
    let a = x.len() as int;
    assert(is_word(x[0]) && is_word(y[y.len() - 1]));
    assert(s[0] == x[0] && s.last() == y.last());
    assert(s[a] == ' ' && s[a + 1] == '=');
    assert(s.subrange(a + 1, a + 2) =~= "="@);
    assert forall|k: int| 0 <= k < a + 1 implies !is_at(s, k, "="@) by {
        if k < a {
            assert(is_word(x[k]) && s[k] == x[k]);
        }
        if is_at(s, k, "="@) {
            assert(s.subrange(k, k + 1)[0] == s[k]);
        }
    }
    lemma_found(s, "="@, 0, a + 1);
    assert(s.subrange(0, a + 1) =~= x + seq![' ']);
    assert(s.subrange(a + 2, s.len() as int) =~= seq![' '] + y);
}

#[verifier::spinoff_prover]
#[verifier::rlimit(40)]
proof fn lemma_binding(x: Seq<char>, y: Seq<char>)
    requires
        is_plain_name(x),
        is_plain_name(y),
    ensures
        is_tight(between(x, "="@, y)),
        binding(between(x, "="@, y)) == Ok::<(Seq<char>, ExprV), Seq<char>>((x, ExprV::Var(y))),
{
    lemma_binding_layout(x, y);
    assert(is_name(x)) by {
        lemma_name_alone(x);
    }
    assert(trimmed(x + seq![' ']) == x) by {
        lemma_name_alone(x);
        lemma_trims(x);
    }
    assert(expression(seq![' '] + y) == Ok::<ExprV, Seq<char>>(ExprV::Var(y))) by {
        lemma_name_alone(y);
    }
}

/// `set x = y` binds `x` to `y`.
#[verifier::spinoff_prover]
#[verifier::rlimit(40)]
pub proof fn law_bindings_are_built(x: Seq<char>, y: Seq<char>, l: bool, r: bool)
    requires
        is_plain_name(x),
        is_plain_name(y),
    ensures
        block(seq![PieceV::Tag(worded("set"@, between(x, "="@, y)), l, r)], Seq::empty(), 0, Until::End) == Built::Ok(
            (seq![NodeV::Bind(x, ExprV::Var(y))], 1),
        ),
{
    let p = seq![PieceV::Tag(worded("set"@, between(x, "="@, y)), l, r)];
    lemma_tag_words();
    lemma_binding(x, y);
    lemma_worded("set"@, between(x, "="@, y));
    let all = Seq::<NodeV>::empty().push(NodeV::Bind(x, ExprV::Var(y)));
    assert(all =~= seq![NodeV::Bind(x, ExprV::Var(y))]);
    assert(block(p, all, 1, Until::End) == Built::Ok((all, 1)));
}

proof fn lemma_out_step(p: Seq<PieceV>, before: Seq<NodeV>, i: nat, e: ExprV)
    requires
        i < p.len(),
        p[i as int] matches PieceV::Out(s, _, _) && expression(s) == Ok::<ExprV, Seq<char>>(e),
    ensures
        block(p, before, i, Until::End) == block(p, before.push(NodeV::Out(e)), i + 1, Until::End),
{
}

proof fn lemma_text_step(p: Seq<PieceV>, before: Seq<NodeV>, i: nat, t: Seq<char>)
    requires
        i < p.len(),
        p[i as int] == PieceV::Text(t),
        t.len() > 0,
    ensures
        block(p, before, i, Until::End) == block(p, before.push(NodeV::Text(t)), i + 1, Until::End),
{
}

/// Text and names stand in the tree in the order in which they stand in the template.
#[verifier::spinoff_prover]
#[verifier::rlimit(40)]
pub proof fn law_text_and_output_are_built(t: Seq<char>, x: Seq<char>, l: bool, r: bool)
    requires
        is_plain_name(x),
        t.len() > 0,
    ensures
        block(seq![PieceV::Text(t), PieceV::Out(x, l, r)], Seq::empty(), 0, Until::End) == Built::Ok(
            (seq![NodeV::Text(t), NodeV::Out(ExprV::Var(x))], 2),
        ),
{
    let p = seq![PieceV::Text(t), PieceV::Out(x, l, r)];
    let one = Seq::<NodeV>::empty().push(NodeV::Text(t));
    let all = one.push(NodeV::Out(ExprV::Var(x)));
    assert(all =~= seq![NodeV::Text(t), NodeV::Out(ExprV::Var(x))]);
    lemma_text_step(p, Seq::empty(), 0, t);
    assert(block(p, one, 1, Until::End) == block(p, all, 2, Until::End)) by {
        lemma_name_alone(x);
        lemma_out_step(p, one, 1, ExprV::Var(x));
    }
    assert(block(p, all, 2, Until::End) == Built::Ok((all, 2)));
}

} // verus!
