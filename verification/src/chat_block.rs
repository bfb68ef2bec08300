//! The blocks of a chat template: text, outputs, `if`, `for` and `set`.

use vstd::prelude::*;
use vstd::string::*;
use crate::chat_expr::{conditional_at_top, expression, is_conditional, is_name, names, parse_expr};
use crate::chat_lex::{Piece, PieceV, pieces_view};
use crate::chat_tree::{Expr, ExprV, Node, NodeV, lemma_nodes_push, nodes_view};
use crate::text::{
    chars_of, contains, find, first_at, first_word, has, join3, same, substring, trim, trimmed, word,
};

verus! {

/// The tags that end a block.
#[derive(Clone, Copy, PartialEq, Eq, Debug, Structural)]
pub enum Until {
    /// The end of the template.
    End,
    /// `elif`, `else` or `endif`.
    Branch,
    /// `endif`.
    Endif,
    /// `endfor` or `else`.
    Endfor,
}

pub open spec fn ends(u: Until, w: Seq<char>) -> bool {
    match u {
        Until::End => false,
        Until::Branch => w == "elif"@ || w == "else"@ || w == "endif"@,
        Until::Endif => w == "endif"@,
        Until::Endfor => w == "endfor"@ || w == "else"@,
    }
}

/// Nodes and the position of the piece after them, or why there are none.
pub type Block = Result<(Seq<NodeV>, nat), Seq<char>>;

/// How many pieces are left.
pub open spec fn remaining(p: Seq<PieceV>, i: nat) -> nat {
    if i <= p.len() {
        (p.len() - i) as nat
    } else {
        0
    }
}

/// The later of two positions.
pub open spec fn onward(k: nat, i: nat) -> nat {
    if k < i {
        i
    } else {
        k
    }
}

/// What stands in a tag after its word.
pub open spec fn tag_rest(src: Seq<char>, w: Seq<char>) -> Seq<char> {
    trimmed(src.subrange(w.len() as int, src.len() as int))
}

/// What the tag at `i` says, where there is one.
pub open spec fn tag_at(p: Seq<PieceV>, i: nat) -> Option<Seq<char>> {
    if i < p.len() {
        match p[i as int] {
            PieceV::Tag(s, _, _) => Some(s),
            _ => None,
        }
    } else {
        None
    }
}

/// A loop's variable and the expression that it runs over. A loop with a filter, or over
/// anything but a name, is beyond the subset.
pub open spec fn loop_head(src: Seq<char>) -> Result<(Seq<char>, ExprV), Seq<char>> {
    match first_at(src, 0, " in "@) {
        None => Err("{% for %} without `in`"@),
        Some(k) => {
            let var = trimmed(src.subrange(0, k));
            if has(var, ","@) {
                Err("{% for %} over pairs is not supported"@)
            } else if !is_name(var) {
                Err("{% for %} without a name"@)
            } else {
                let iter = src.subrange(k + " in "@.len(), src.len() as int);
                match expression(iter) {
                    Err(e) => Err(e),
                    Ok(e) => if is_conditional(iter) {
                        Err("{% for %} with `if` is not supported"@)
                    } else {
                        Ok((var, e))
                    },
                }
            }
        },
    }
}

/// The name that `set` binds, and its value. Only names can be bound.
pub open spec fn binding(src: Seq<char>) -> Result<(Seq<char>, ExprV), Seq<char>> {
    match first_at(src, 0, "="@) {
        None => Err("{% set %} without `=`"@),
        Some(k) => match expression(src.subrange(k + "="@.len(), src.len() as int)) {
            Err(e) => Err(e),
            Ok(e) => if is_name(trimmed(src.subrange(0, k))) {
                Ok((trimmed(src.subrange(0, k)), e))
            } else {
                Err("{% set %} without a name"@)
            },
        },
    }
}

/// The nodes from piece `i` on, up to a tag that ends the block, after the nodes
/// `before`.
pub open spec fn block(p: Seq<PieceV>, before: Seq<NodeV>, i: nat, until: Until) -> Block
    decreases remaining(p, i), 1nat,
{
    if i >= p.len() {
        Ok((before, i))
    } else {
        match p[i as int] {
            PieceV::Text(t) => block(
                p,
                if t.len() == 0 {
                    before
                } else {
                    before.push(NodeV::Text(t))
                },
                i + 1,
                until,
            ),
            PieceV::Out(src, _, _) => match expression(src) {
                Err(e) => Err(e),
                Ok(e) => block(p, before.push(NodeV::Out(e)), i + 1, until),
            },
            PieceV::Tag(src, _, _) => {
                let w = first_word(src);
                if ends(until, w) {
                    Ok((before, i))
                } else if w == "if"@ {
                    match expression(tag_rest(src, "if"@)) {
                        Err(e) => Err(e),
                        Ok(c) => match branches(p, Seq::empty(), c, i + 1) {
                            Err(e) => Err(e),
                            Ok((n, j)) => block(p, before.push(n), onward(j, i + 1), until),
                        },
                    }
                } else if w == "for"@ {
                    match loop_head(tag_rest(src, "for"@)) {
                        Err(e) => Err(e),
                        Ok((var, iter)) => match block(p, Seq::empty(), i + 1, Until::Endfor) {
                            Err(e) => Err(e),
                            Ok((body, j)) => if tag_at(p, j) == Some("endfor"@) {
                                block(p, before.push(NodeV::For { var, iter, body }), onward(j + 1, i + 1), until)
                            } else {
                                Err("unclosed {% for %}"@)
                            },
                        },
                    }
                } else if w == "set"@ {
                    match binding(tag_rest(src, "set"@)) {
                        Err(e) => Err(e),
                        Ok((name, e)) => block(p, before.push(NodeV::Bind(name, e)), i + 1, until),
                    }
                } else if w == "generation"@ || w == "endgeneration"@ {
                    block(p, before, i + 1, until)
                } else {
                    Err("unsupported tag: {% "@ + w + " %}"@)
                }
            },
        }
    }
}

/// The rest of a conditional, from the body of the branch under `c` on. An `endif` ends
/// it, whether or not there is an `else`.
pub open spec fn branches(p: Seq<PieceV>, before: Seq<(ExprV, Seq<NodeV>)>, c: ExprV, i: nat) -> Result<
    (NodeV, nat),
    Seq<char>,
>
    decreases remaining(p, i), 2nat,
{
    match block(p, Seq::empty(), i, Until::Branch) {
        Err(e) => Err(e),
        Ok((body, j)) => {
            let j = onward(j, i);
            let now = before.push((c, body));
            match tag_at(p, j) {
                None => Err("unclosed {% if %}"@),
                Some(src) => {
                    let w = first_word(src);
                    if w == "elif"@ {
                        match expression(tag_rest(src, "elif"@)) {
                            Err(e) => Err(e),
                            Ok(next) => branches(p, now, next, j + 1),
                        }
                    } else if src == "else"@ {
                        match block(p, Seq::empty(), j + 1, Until::Endif) {
                            Err(e) => Err(e),
                            Ok((otherwise, k)) => if tag_at(p, k) == Some("endif"@) {
                                Ok((NodeV::If(now, otherwise), onward(k, j + 1) + 1))
                            } else {
                                Err("unclosed {% if %}"@)
                            },
                        }
                    } else if src == "endif"@ {
                        Ok((NodeV::If(now, Seq::empty()), j + 1))
                    } else {
                        Err("unsupported tag: {% "@ + src + " %}"@)
                    }
                },
            }
        },
    }
}

fn closes(u: Until, w: &str) -> (r: bool)
    ensures
        r == ends(u, w@),
{
    match u {
        Until::End => false,
        Until::Branch => same(w, "elif") || same(w, "else") || same(w, "endif"),
        Until::Endif => same(w, "endif"),
        Until::Endfor => same(w, "endfor") || same(w, "else"),
    }
}

/// What stands in a tag after its word.
fn rest(src: &str, w: &str) -> (r: String)
    requires
        w@.len() <= src@.len(),
    ensures
        r@ == tag_rest(src@, w@),
{
    let c = chars_of(src);
    let n: usize = chars_of(w).len();
    let tail = substring(c.as_slice(), n, c.len());
    trim(tail.as_str())
}

/// A loop's variable and the expression that it runs over.
fn parse_loop(src: &str) -> (r: Result<(String, Expr), String>)
    ensures
        match r {
            Ok(p) => loop_head(src@) == Ok::<(Seq<char>, ExprV), Seq<char>>((p.0@, p.1@)),
            Err(e) => loop_head(src@) == Err::<(Seq<char>, ExprV), Seq<char>>(e@),
        },
{
    let c = chars_of(src);
    match find(c.as_slice(), 0, " in ") {
        None => Err("{% for %} without `in`".to_owned()),
        Some(k) => {
            let head = substring(c.as_slice(), 0, k);
            let var = trim(head.as_str());
            if contains(var.as_str(), ",") {
                return Err("{% for %} over pairs is not supported".to_owned());
            }
            if !names(var.as_str()) {
                return Err("{% for %} without a name".to_owned());
            }
            let n: usize = chars_of(" in ").len();
            assert(k + n <= c.len());
            let tail = substring(c.as_slice(), k + n, c.len());
            match parse_expr(tail.as_str()) {
                Ok(e) => if conditional_at_top(tail.as_str()) {
                    Err("{% for %} with `if` is not supported".to_owned())
                } else {
                    Ok((var, e))
                },
                Err(e) => Err(e),
            }
        },
    }
}

/// The name that `set` binds, and its value.
fn parse_set(src: &str) -> (r: Result<(String, Expr), String>)
    ensures
        match r {
            Ok(p) => binding(src@) == Ok::<(Seq<char>, ExprV), Seq<char>>((p.0@, p.1@)),
            Err(e) => binding(src@) == Err::<(Seq<char>, ExprV), Seq<char>>(e@),
        },
{
    let c = chars_of(src);
    match find(c.as_slice(), 0, "=") {
        None => Err("{% set %} without `=`".to_owned()),
        Some(k) => {
            let head = substring(c.as_slice(), 0, k);
            let name = trim(head.as_str());
            let n: usize = chars_of("=").len();
            assert(k + n <= c.len());
            let tail = substring(c.as_slice(), k + n, c.len());
            match parse_expr(tail.as_str()) {
                Ok(e) => if names(name.as_str()) {
                    Ok((name, e))
                } else {
                    Err("{% set %} without a name".to_owned())
                },
                Err(e) => Err(e),
            }
        },
    }
}

/// A word is no longer than the text it is taken from.
proof fn lemma_word_fits(s: Seq<char>)
    ensures
        first_word(s).len() <= s.len(),
{
    let t = crate::text::strip_start(s, crate::text::Blank::Space);
    lemma_after_blank(s, 0);
    lemma_word_end(t, 0);
}

proof fn lemma_after_blank(s: Seq<char>, i: int)
    requires
        0 <= i <= s.len(),
    ensures
        i <= crate::text::after_blank(s, i, crate::text::Blank::Space) <= s.len(),
    decreases s.len() - i,
{
    if i < s.len() && crate::text::is_blank(s[i], crate::text::Blank::Space) {
        lemma_after_blank(s, i + 1);
    }
}

proof fn lemma_word_end(s: Seq<char>, i: int)
    requires
        0 <= i <= s.len(),
    ensures
        i <= crate::text::word_end(s, i) <= s.len(),
    decreases s.len() - i,
{
    if i < s.len() && !crate::text::whitespace(s[i]) {
        lemma_word_end(s, i + 1);
    }
}

/// Parse nodes until a tag that ends the block is reached.
#[verifier::spinoff_prover]
#[verifier::rlimit(60)]
#[verifier::loop_isolation(false)]
pub fn parse_block(pieces: &Vec<Piece>, start: usize, until: Until) -> (r: Result<(Vec<Node>, usize), String>)
    requires
        start <= pieces@.len(),
    ensures
        match r {
            Ok(p) => block(pieces_view(pieces@), Seq::empty(), start as nat, until) == Ok::<
                (Seq<NodeV>, nat),
                Seq<char>,
            >((nodes_view(p.0@), p.1 as nat)) && start <= p.1 <= pieces@.len(),
            Err(e) => block(pieces_view(pieces@), Seq::empty(), start as nat, until) == Err::<
                (Seq<NodeV>, nat),
                Seq<char>,
            >(e@),
        },
    decreases pieces@.len() - start, 1int,
{
    let ghost pv = pieces_view(pieces@);
    let ghost want = block(pv, Seq::empty(), start as nat, until);
    let mut nodes: Vec<Node> = Vec::new();
    let mut i: usize = start;
    assert(nodes_view(nodes@) =~= Seq::<NodeV>::empty());
    while i < pieces.len()
        invariant
            start <= i <= pieces@.len(),
            want == block(pv, nodes_view(nodes@), i as nat, until),
        decreases pieces@.len() - i,
    {
        assert(pv[i as int] == pieces@[i as int]@);
        let ghost before = nodes@;
        match &pieces[i] {
            Piece::Text(t) => {
                if !t.as_str().is_empty() {
                    let n = Node::Text(t.clone());
                    proof {
                        lemma_nodes_push(before, n);
                    }
                    nodes.push(n);
                }
                i += 1;
            },
            Piece::Out(src, _, _) => {
                match parse_expr(src.as_str()) {
                    Ok(e) => {
                        let n = Node::Out(e);
                        proof {
                            lemma_nodes_push(before, n);
                        }
                        nodes.push(n);
                    },
                    Err(e) => {
                        return Err(e);
                    },
                }
                i += 1;
            },
            Piece::Tag(src, _, _) => {
                let w = word(src.as_str());
                proof {
                    lemma_word_fits(src@);
                }
                if closes(until, w.as_str()) {
                    return Ok((nodes, i));
                }
                if same(w.as_str(), "if") {
                    let head = rest(src.as_str(), "if");
                    match parse_expr(head.as_str()) {
                        Ok(c) => match parse_branches(pieces, c, i + 1) {
                            Ok((n, j)) => {
                                proof {
                                    lemma_nodes_push(before, n);
                                }
                                nodes.push(n);
                                i = j;
                            },
                            Err(e) => {
                                return Err(e);
                            },
                        },
                        Err(e) => {
                            return Err(e);
                        },
                    }
                } else if same(w.as_str(), "for") {
                    let head = rest(src.as_str(), "for");
                    let (var, iter) = match parse_loop(head.as_str()) {
                        Ok(p) => p,
                        Err(e) => {
                            return Err(e);
                        },
                    };
                    let (body, j) = match parse_block(pieces, i + 1, Until::Endfor) {
                        Ok(p) => p,
                        Err(e) => {
                            return Err(e);
                        },
                    };
                    if !closed_by(pieces, j, "endfor") {
                        return Err("unclosed {% for %}".to_owned());
                    }
                    let n = Node::For { var, iter, body };
                    proof {
                        lemma_nodes_push(before, n);
                    }
                    nodes.push(n);
                    i = j + 1;
                } else if same(w.as_str(), "set") {
                    let head = rest(src.as_str(), "set");
                    match parse_set(head.as_str()) {
                        Ok((name, e)) => {
                            let n = Node::Bind(name, e);
                            proof {
                                lemma_nodes_push(before, n);
                            }
                            nodes.push(n);
                        },
                        Err(e) => {
                            return Err(e);
                        },
                    }
                    i += 1;
                } else if same(w.as_str(), "generation") || same(w.as_str(), "endgeneration") {
                    // Harmless in a chat template: they affect nothing here.
                    i += 1;
                } else {
                    return Err(join3("unsupported tag: {% ", w.as_str(), " %}"));
                }
            },
        }
    }
    Ok((nodes, i))
}

/// Whether the tag `w` stands at `j`.
fn closed_by(pieces: &Vec<Piece>, j: usize, w: &str) -> (r: bool)
    ensures
        r == (tag_at(pieces_view(pieces@), j as nat) == Some(w@)),
{
    if j >= pieces.len() {
        return false;
    }
    assert(pieces_view(pieces@)[j as int] == pieces@[j as int]@);
    match &pieces[j] {
        Piece::Tag(s, _, _) => same(s.as_str(), w),
        _ => false,
    }
}

/// What the branches of a conditional hold.
pub open spec fn branches_view(v: Seq<(Expr, Vec<Node>)>) -> Seq<(ExprV, Seq<NodeV>)> {
    Seq::new(v.len(), |i: int| (v[i].0@, nodes_view(v[i].1@)))
}

fn make_if(branches: Vec<(Expr, Vec<Node>)>, otherwise: Vec<Node>) -> (n: Node)
    ensures
        n@ == NodeV::If(branches_view(branches@), nodes_view(otherwise@)),
{
    let n = Node::If(branches, otherwise);
    assert(n@->If_0 =~= branches_view(branches@));
    n
}

/// Collect branches until `endif`, following `elif` and `else`.
#[verifier::spinoff_prover]
#[verifier::rlimit(30)]
#[verifier::loop_isolation(false)]
fn parse_branches(pieces: &Vec<Piece>, first: Expr, start: usize) -> (r: Result<(Node, usize), String>)
    requires
        start <= pieces@.len(),
    ensures
        match r {
            Ok(p) => crate::chat_block::branches(pieces_view(pieces@), Seq::empty(), first@, start as nat) == Ok::<
                (NodeV, nat),
                Seq<char>,
            >((p.0@, p.1 as nat)) && start <= p.1 <= pieces@.len(),
            Err(e) => crate::chat_block::branches(pieces_view(pieces@), Seq::empty(), first@, start as nat) == Err::<
                (NodeV, nat),
                Seq<char>,
            >(e@),
        },
    decreases pieces@.len() - start, 2int,
{
    let ghost pv = pieces_view(pieces@);
    let ghost want = crate::chat_block::branches(pv, Seq::empty(), first@, start as nat);
    let mut done: Vec<(Expr, Vec<Node>)> = Vec::new();
    let mut c = first;
    let mut i: usize = start;
    assert(branches_view(done@) =~= Seq::<(ExprV, Seq<NodeV>)>::empty());
    loop
        invariant
            start <= i <= pieces@.len(),
            want == crate::chat_block::branches(pv, branches_view(done@), c@, i as nat),
        decreases pieces@.len() - i,
    {
        let (body, j) = match parse_block(pieces, i, Until::Branch) {
            Ok(p) => p,
            Err(e) => {
                return Err(e);
            },
        };
        let ghost before = branches_view(done@);
        let ghost cv = c@;
        let ghost bv = nodes_view(body@);
        done.push((c, body));
        assert(branches_view(done@) =~= before.push((cv, bv)));
        if j >= pieces.len() {
            return Err("unclosed {% if %}".to_owned());
        }
        assert(pv[j as int] == pieces@[j as int]@);
        let src: &String = match &pieces[j] {
            Piece::Tag(s, _, _) => s,
            _ => {
                return Err("unclosed {% if %}".to_owned());
            },
        };
        let w = word(src.as_str());
        proof {
            lemma_word_fits(src@);
        }
        if same(w.as_str(), "elif") {
            let head = rest(src.as_str(), "elif");
            match parse_expr(head.as_str()) {
                Ok(e) => {
                    c = e;
                    i = j + 1;
                },
                Err(e) => {
                    return Err(e);
                },
            }
        } else if same(src.as_str(), "else") {
            return match parse_block(pieces, j + 1, Until::Endif) {
                Ok((otherwise, k)) => if closed_by(pieces, k, "endif") {
                    Ok((make_if(done, otherwise), k + 1))
                } else {
                    Err("unclosed {% if %}".to_owned())
                },
                Err(e) => Err(e),
            };
        } else if !same(src.as_str(), "endif") {
            return Err(join3("unsupported tag: {% ", src.as_str(), " %}"));
        } else {
            let none: Vec<Node> = Vec::new();
            assert(nodes_view(none@) =~= Seq::<NodeV>::empty());
            return Ok((make_if(done, none), j + 1));
        }
    }
}

/// What a piece adds to the number of blocks that are open: one where it is a tag of the
/// word that opens them, and one less where it is a tag of the word that closes them.
pub open spec fn opens(x: PieceV, opener: Seq<char>, closer: Seq<char>) -> int {
    match x {
        PieceV::Tag(s, _, _) => if first_word(s) == opener {
            1
        } else if first_word(s) == closer {
            -1
        } else {
            0
        },
        _ => 0,
    }
}

/// How many more blocks the pieces from `i` to `j` open than they close.
pub open spec fn opened(p: Seq<PieceV>, i: nat, j: nat, opener: Seq<char>, closer: Seq<char>) -> int
    decreases j,
{
    if j <= i || j > p.len() {
        0
    } else {
        opened(p, i, (j - 1) as nat, opener, closer) + opens(p[j - 1], opener, closer)
    }
}

proof fn lemma_opened_joins(p: Seq<PieceV>, i: nat, j: nat, k: nat, opener: Seq<char>, closer: Seq<char>)
    requires
        i <= j <= k <= p.len(),
    ensures
        opened(p, i, k, opener, closer) == opened(p, i, j, opener, closer) + opened(p, j, k, opener, closer),
    decreases k,
{
    if j < k {
        lemma_opened_joins(p, i, j, (k - 1) as nat, opener, closer);
    }
}

/// Whether pieces open as many conditionals and loops as they close, but for `n`
/// conditionals.
pub open spec fn balanced(p: Seq<PieceV>, i: nat, j: nat, n: int) -> bool {
    opened(p, i, j, "if"@, "endif"@) == n && opened(p, i, j, "for"@, "endfor"@) == 0
}

proof fn lemma_balanced_joins(p: Seq<PieceV>, i: nat, j: nat, k: nat, n: int, m: int)
    requires
        i <= j <= k <= p.len(),
        balanced(p, i, j, n),
        balanced(p, j, k, m),
    ensures
        balanced(p, i, k, n + m),
{
    lemma_opened_joins(p, i, j, k, "if"@, "endif"@);
    lemma_opened_joins(p, i, j, k, "for"@, "endfor"@);
}

/// What one piece opens and closes.
proof fn lemma_one_piece(p: Seq<PieceV>, i: nat)
    requires
        i < p.len(),
    ensures
        opened(p, i, i + 1, "if"@, "endif"@) == opens(p[i as int], "if"@, "endif"@),
        opened(p, i, i + 1, "for"@, "endfor"@) == opens(p[i as int], "for"@, "endfor"@),
{
    assert(opened(p, i, i, "if"@, "endif"@) == 0);
    assert(opened(p, i, i, "for"@, "endfor"@) == 0);
}

/// The words of tags are told apart.
proof fn lemma_words()
    ensures
        "if"@ != "endif"@ && "if"@ != "for"@ && "if"@ != "endfor"@ && "if"@ != "else"@ && "if"@ != "elif"@ && "if"@ != "set"@,
        "for"@ != "endif"@ && "for"@ != "endfor"@ && "for"@ != "else"@ && "for"@ != "elif"@ && "for"@ != "set"@,
        "endif"@ != "endfor"@ && "endif"@ != "else"@ && "endif"@ != "elif"@ && "endif"@ != "set"@,
        "endfor"@ != "else"@ && "endfor"@ != "elif"@ && "endfor"@ != "set"@,
        "generation"@.len() == 10 && "endgeneration"@.len() == 13,
        "if"@.len() == 2 && "for"@.len() == 3 && "endif"@.len() == 5 && "endfor"@.len() == 6,
{
    reveal_strlit("if");
    reveal_strlit("for");
    reveal_strlit("endif");
    reveal_strlit("endfor");
    reveal_strlit("else");
    reveal_strlit("elif");
    reveal_strlit("set");
    reveal_strlit("generation");
    reveal_strlit("endgeneration");
    assert("if"@.len() == 2 && "for"@.len() == 3 && "endif"@.len() == 5 && "endfor"@.len() == 6);
    assert("else"@.len() == 4 && "elif"@.len() == 4 && "set"@.len() == 3);
    assert("for"@[0] == 'f' && "set"@[0] == 's');
}

/// A text without whitespace is its own first word.
proof fn lemma_bare_word(s: Seq<char>)
    requires
        s.len() > 0,
        forall|k: int| 0 <= k < s.len() ==> !crate::text::whitespace(#[trigger] s[k]),
    ensures
        first_word(s) == s,
{
    assert(!crate::text::whitespace(s[0]));
    assert(crate::text::after_blank(s, 0, crate::text::Blank::Space) == 0);
    assert(crate::text::strip_start(s, crate::text::Blank::Space) =~= s);
    lemma_bare_word_end(s, 0);
    assert(s.subrange(0, s.len() as int) =~= s);
}

proof fn lemma_bare_word_end(s: Seq<char>, i: int)
    requires
        0 <= i <= s.len(),
        forall|k: int| 0 <= k < s.len() ==> !crate::text::whitespace(#[trigger] s[k]),
    ensures
        crate::text::word_end(s, i) == s.len(),
    decreases s.len() - i,
{
    if i < s.len() {
        assert(!crate::text::whitespace(s[i]));
        lemma_bare_word_end(s, i + 1);
    }
}

/// What is parsed as a block opens as many conditionals and loops as it closes.
proof fn lemma_block_closed(p: Seq<PieceV>, before: Seq<NodeV>, i: nat, until: Until)
    requires
        i <= p.len(),
    ensures
        block(p, before, i, until) matches Ok((_, j)) ==> i <= j <= p.len() && balanced(p, i, j, 0),
    decreases remaining(p, i), 1nat,
{
    lemma_words();
    if i < p.len() && block(p, before, i, until) is Ok {
        lemma_one_piece(p, i);
        let end = block(p, before, i, until)->Ok_0.1;
        match p[i as int] {
            PieceV::Text(t) => {
                let next = if t.len() == 0 {
                    before
                } else {
                    before.push(NodeV::Text(t))
                };
                lemma_block_closed(p, next, i + 1, until);
                lemma_balanced_joins(p, i, i + 1, end, 0, 0);
            },
            PieceV::Out(src, _, _) => {
                lemma_block_closed(p, before.push(NodeV::Out(expression(src)->Ok_0)), i + 1, until);
                lemma_balanced_joins(p, i, i + 1, end, 0, 0);
            },
            PieceV::Tag(src, _, _) => {
                let w = first_word(src);
                if ends(until, w) {
                } else if w == "if"@ {
                    let c = expression(tag_rest(src, "if"@))->Ok_0;
                    lemma_branches_closed(p, Seq::empty(), c, i + 1);
                    let (n, j) = branches(p, Seq::empty(), c, i + 1)->Ok_0;
                    lemma_balanced_more(p, i, j, -1);
                    lemma_block_closed(p, before.push(n), j, until);
                    lemma_balanced_joins(p, i, j, end, 0, 0);
                } else if w == "for"@ {
                    let (var, iter) = loop_head(tag_rest(src, "for"@))->Ok_0;
                    lemma_block_closed(p, Seq::empty(), i + 1, Until::Endfor);
                    let (body, j) = block(p, Seq::empty(), i + 1, Until::Endfor)->Ok_0;
                    lemma_one_piece(p, j);
                    lemma_endings();
                    lemma_opened_joins(p, i, i + 1, j, "if"@, "endif"@);
                    lemma_opened_joins(p, i, i + 1, j, "for"@, "endfor"@);
                    lemma_opened_joins(p, i, j, j + 1, "if"@, "endif"@);
                    lemma_opened_joins(p, i, j, j + 1, "for"@, "endfor"@);
                    lemma_block_closed(p, before.push(NodeV::For { var, iter, body }), j + 1, until);
                    lemma_balanced_joins(p, i, j + 1, end, 0, 0);
                } else if w == "set"@ {
                    let (name, e) = binding(tag_rest(src, "set"@))->Ok_0;
                    lemma_block_closed(p, before.push(NodeV::Bind(name, e)), i + 1, until);
                    lemma_balanced_joins(p, i, i + 1, end, 0, 0);
                } else {
                    lemma_block_closed(p, before, i + 1, until);
                    lemma_balanced_joins(p, i, i + 1, end, 0, 0);
                }
            },
        }
    }
}

/// What follows the tag that opens a conditional closes one more than it opens.
proof fn lemma_branches_closed(p: Seq<PieceV>, before: Seq<(ExprV, Seq<NodeV>)>, c: ExprV, i: nat)
    requires
        i <= p.len(),
    ensures
        branches(p, before, c, i) matches Ok((_, j)) ==> i <= j <= p.len() && balanced(p, i, j, -1),
    decreases remaining(p, i), 2nat,
{
    lemma_words();
    lemma_endings();
    if branches(p, before, c, i) is Ok {
        lemma_block_closed(p, Seq::empty(), i, Until::Branch);
        let (body, j) = block(p, Seq::empty(), i, Until::Branch)->Ok_0;
        let now = before.push((c, body));
        let src = tag_at(p, j)->0;
        let end = branches(p, before, c, i)->Ok_0.1;
        lemma_one_piece(p, j);
        if first_word(src) == "elif"@ {
            let next = expression(tag_rest(src, "elif"@))->Ok_0;
            lemma_balanced_joins(p, i, j, j + 1, 0, 0);
            lemma_branches_closed(p, now, next, j + 1);
            lemma_balanced_joins(p, i, j + 1, end, 0, -1);
        } else if src == "else"@ {
            lemma_block_closed(p, Seq::empty(), j + 1, Until::Endif);
            let k = block(p, Seq::empty(), j + 1, Until::Endif)->Ok_0.1;
            lemma_balanced_joins(p, i, j, j + 1, 0, 0);
            lemma_balanced_joins(p, i, j + 1, k, 0, 0);
            lemma_one_piece(p, k);
            lemma_balanced_joins(p, i, k, k + 1, 0, -1);
        } else {
            lemma_balanced_joins(p, i, j, j + 1, 0, -1);
        }
    }
}

proof fn lemma_balanced_more(p: Seq<PieceV>, i: nat, j: nat, n: int)
    requires
        i < j <= p.len(),
        balanced(p, i + 1, j, n),
        opens(p[i as int], "if"@, "endif"@) == 1,
        opens(p[i as int], "for"@, "endfor"@) == 0,
    ensures
        balanced(p, i, j, n + 1),
{
    lemma_one_piece(p, i);
    lemma_opened_joins(p, i, i + 1, j, "if"@, "endif"@);
    lemma_opened_joins(p, i, i + 1, j, "for"@, "endfor"@);
}

/// The closing tags are their own words.
proof fn lemma_endings()
    ensures
        first_word("else"@) == "else"@,
        first_word("endif"@) == "endif"@,
        first_word("endfor"@) == "endfor"@,
{
    reveal_strlit("else");
    reveal_strlit("endif");
    reveal_strlit("endfor");
    lemma_bare_word("else"@);
    lemma_bare_word("endif"@);
    lemma_bare_word("endfor"@);
}

/// Nothing is left open: the tags of a template that is accepted open as many conditionals
/// as they close, and as many loops.
pub proof fn law_every_block_is_closed(p: Seq<PieceV>)
    requires
        block(p, Seq::empty(), 0, Until::End) is Ok,
    ensures
        opened(p, 0, p.len(), "if"@, "endif"@) == 0,
        opened(p, 0, p.len(), "for"@, "endfor"@) == 0,
{
    lemma_block_closed(p, Seq::empty(), 0, Until::End);
    lemma_reads_to_the_end(p, Seq::empty(), 0);
}

/// Nothing ends the outermost block but the end of the template.
proof fn lemma_reads_to_the_end(p: Seq<PieceV>, before: Seq<NodeV>, i: nat)
    requires
        i <= p.len(),
    ensures
        block(p, before, i, Until::End) matches Ok((_, j)) ==> j == p.len(),
    decreases remaining(p, i),
{
    if i < p.len() && block(p, before, i, Until::End) is Ok {
        match p[i as int] {
            PieceV::Text(t) => {
                let next = if t.len() == 0 {
                    before
                } else {
                    before.push(NodeV::Text(t))
                };
                lemma_reads_to_the_end(p, next, i + 1);
            },
            PieceV::Out(src, _, _) => {
                lemma_reads_to_the_end(p, before.push(NodeV::Out(expression(src)->Ok_0)), i + 1);
            },
            PieceV::Tag(src, _, _) => {
                let w = first_word(src);
                if w == "if"@ {
                    let c = expression(tag_rest(src, "if"@))->Ok_0;
                    lemma_branches_closed(p, Seq::empty(), c, i + 1);
                    let (n, j) = branches(p, Seq::empty(), c, i + 1)->Ok_0;
                    lemma_reads_to_the_end(p, before.push(n), j);
                } else if w == "for"@ {
                    let (var, iter) = loop_head(tag_rest(src, "for"@))->Ok_0;
                    lemma_block_closed(p, Seq::empty(), i + 1, Until::Endfor);
                    let (body, j) = block(p, Seq::empty(), i + 1, Until::Endfor)->Ok_0;
                    lemma_reads_to_the_end(p, before.push(NodeV::For { var, iter, body }), j + 1);
                } else if w == "set"@ {
                    let (name, e) = binding(tag_rest(src, "set"@))->Ok_0;
                    lemma_reads_to_the_end(p, before.push(NodeV::Bind(name, e)), i + 1);
                } else {
                    lemma_reads_to_the_end(p, before, i + 1);
                }
            },
        }
    }
}

} // verus!
