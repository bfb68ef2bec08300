//! The tree of a chat template: what parsing gives and rendering walks.

use vstd::prelude::*;
use crate::json::{Json, JsonV};

verus! {

/// The operators of two operands.
#[derive(Clone, Copy, PartialEq, Eq, Debug, Structural)]
pub enum BinOp {
    Or,
    And,
    Eq,
    Ne,
    Ge,
    Le,
    Gt,
    Lt,
    In,
    /// A test such as `is defined`; its name is the right operand.
    Is,
    /// Concatenation or addition.
    Plus,
    Minus,
}

#[derive(Debug)]
pub enum Expr {
    Lit(Json),
    /// A number written with a decimal point.
    Decimal(String),
    /// A number written with a decimal point, after a minus sign.
    Negative(Box<Expr>),
    Var(String),
    /// `a.b` or `a['b']`: the same operation either way.
    Index(Box<Expr>, Box<Expr>),
    Not(Box<Expr>),
    Bin(BinOp, Box<Expr>, Box<Expr>),
    /// `value | name(args)`
    Filter(Box<Expr>, String, Vec<Expr>),
    /// Condition, value if true, value if false.
    Cond(Box<Expr>, Box<Expr>, Box<Expr>),
    List(Vec<Expr>),
}

/// What an [`Expr`] holds.
pub enum ExprV {
    Lit(JsonV),
    Decimal(Seq<char>),
    Negative(Box<ExprV>),
    Var(Seq<char>),
    Index(Box<ExprV>, Box<ExprV>),
    Not(Box<ExprV>),
    Bin(BinOp, Box<ExprV>, Box<ExprV>),
    Filter(Box<ExprV>, Seq<char>, Seq<ExprV>),
    Cond(Box<ExprV>, Box<ExprV>, Box<ExprV>),
    List(Seq<ExprV>),
}

pub open spec fn expr_view(e: Expr) -> ExprV
    decreases e,
{
    match e {
        Expr::Lit(v) => ExprV::Lit(v@),
        Expr::Decimal(t) => ExprV::Decimal(t@),
        Expr::Negative(a) => ExprV::Negative(Box::new(expr_view(*a))),
        Expr::Var(n) => ExprV::Var(n@),
        Expr::Index(a, b) => ExprV::Index(Box::new(expr_view(*a)), Box::new(expr_view(*b))),
        Expr::Not(a) => ExprV::Not(Box::new(expr_view(*a))),
        Expr::Bin(op, a, b) => ExprV::Bin(op, Box::new(expr_view(*a)), Box::new(expr_view(*b))),
        Expr::Filter(a, n, args) => ExprV::Filter(
            Box::new(expr_view(*a)),
            n@,
            Seq::new(
                args@.len(),
                |i: int| if 0 <= i < args@.len() { expr_view(args@[i]) } else { ExprV::List(Seq::empty()) },
            ),
        ),
        Expr::Cond(c, a, b) => ExprV::Cond(
            Box::new(expr_view(*c)),
            Box::new(expr_view(*a)),
            Box::new(expr_view(*b)),
        ),
        Expr::List(items) => ExprV::List(
            Seq::new(
                items@.len(),
                |i: int| if 0 <= i < items@.len() { expr_view(items@[i]) } else { ExprV::List(Seq::empty()) },
            ),
        ),
    }
}

impl View for Expr {
    type V = ExprV;

    open spec fn view(&self) -> ExprV {
        expr_view(*self)
    }
}

#[derive(Debug)]
pub enum Node {
    Text(String),
    Out(Expr),
    /// Condition and body of each branch, and the body of `else`.
    If(Vec<(Expr, Vec<Node>)>, Vec<Node>),
    For { var: String, iter: Expr, body: Vec<Node> },
    Bind(String, Expr),
}

/// What a [`Node`] holds.
pub enum NodeV {
    Text(Seq<char>),
    Out(ExprV),
    If(Seq<(ExprV, Seq<NodeV>)>, Seq<NodeV>),
    For { var: Seq<char>, iter: ExprV, body: Seq<NodeV> },
    Bind(Seq<char>, ExprV),
}

pub open spec fn node_view(n: Node) -> NodeV
    decreases n,
{
    match n {
        Node::Text(t) => NodeV::Text(t@),
        Node::Out(e) => NodeV::Out(e@),
        Node::If(branches, otherwise) => NodeV::If(
            Seq::new(
                branches@.len(),
                |i: int|
                    if 0 <= i < branches@.len() {
                        (branches@[i].0@, nodes_view(branches@[i].1@))
                    } else {
                        (ExprV::List(Seq::empty()), Seq::empty())
                    },
            ),
            nodes_view(otherwise@),
        ),
        Node::For { var, iter, body } => NodeV::For { var: var@, iter: iter@, body: nodes_view(body@) },
        Node::Bind(name, e) => NodeV::Bind(name@, e@),
    }
}

pub open spec fn nodes_view(v: Seq<Node>) -> Seq<NodeV>
    decreases v,
{
    Seq::new(v.len(), |i: int| if 0 <= i < v.len() { node_view(v[i]) } else { NodeV::Text(Seq::empty()) })
}

impl View for Node {
    type V = NodeV;

    open spec fn view(&self) -> NodeV {
        node_view(*self)
    }
}

/// One node more at the end.
pub proof fn lemma_nodes_push(v: Seq<Node>, n: Node)
    ensures
        nodes_view(v.push(n)) == nodes_view(v).push(n@),
{
    assert(nodes_view(v.push(n)) =~= nodes_view(v).push(n@));
}

} // verus!
