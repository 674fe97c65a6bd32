//! The syntax tree, and its model as a tree of labelled nodes.
//!
//! Every node of the syntax tree is a pair of a statement or an expression
//! and its span. The model, `Tree`, holds the same nodes in one shape: a
//! label, the span and the children in source order. The span of an
//! operator or of a name counts as a child too, a leaf.

use vstd::prelude::*;
use crate::front::Span;
use crate::symbol::Symbol;

verus! {

/// A numeric literal: a whole number written in hexadecimal, or the handle
/// of a decimal literal's text.
#[derive(Clone, Copy, Debug, PartialEq, Eq, Structural)]
pub enum Number {
    Integer(u64),
    Decimal(Symbol),
}

#[derive(Clone, Copy, Debug, PartialEq, Eq, Structural)]
pub enum Value {
    Ident(Symbol),
    Real(Number),
    String(Symbol),
}

#[derive(Clone, Copy, Debug, PartialEq, Eq, Structural)]
pub enum Unary {
    Positive,
    Negate,
    Invert,
    BitInvert,
}

#[derive(Clone, Copy, Debug, PartialEq, Eq, Structural)]
pub enum Op {
    Add,
    Subtract,
    Multiply,
    Divide,
    BitAnd,
    BitOr,
    BitXor,
}

#[derive(Clone, Copy, Debug, PartialEq, Eq, Structural)]
pub enum Binary {
    Lt,
    Le,
    Eq,
    Ne,
    Ge,
    Gt,
    Op(Op),
    Div,
    Mod,
    And,
    Or,
    Xor,
    ShiftLeft,
    ShiftRight,
}

#[derive(Clone, Copy, Debug, PartialEq, Eq, Structural)]
pub enum Declare {
    Local,
    Global,
}

#[derive(Clone, Copy, Debug, PartialEq, Eq, Structural)]
pub enum Jump {
    Break,
    Continue,
    Exit,
}

/// A call: the name of what is called, and the arguments.
#[derive(Debug, PartialEq)]
pub struct Call(pub (Symbol, Span), pub Vec<(Expr, Span)>);

#[derive(Debug, PartialEq)]
pub enum Expr {
    Value(Value),
    Unary((Unary, Span), Box<(Expr, Span)>),
    Binary((Binary, Span), Box<(Expr, Span)>, Box<(Expr, Span)>),
    Field(Box<(Expr, Span)>, (Symbol, Span)),
    Index(Box<(Expr, Span)>, Vec<(Expr, Span)>),
    Call(Call),
    Error,
}

#[derive(Debug, PartialEq)]
pub enum Stmt {
    Assign((Option<Op>, Span), Box<(Expr, Span)>, Box<(Expr, Span)>),
    Invoke(Call),
    Declare(Declare, Vec<(Symbol, Span)>),
    Block(Vec<(Stmt, Span)>),
    If(Box<(Expr, Span)>, Box<(Stmt, Span)>, Option<Box<(Stmt, Span)>>),
    Repeat(Box<(Expr, Span)>, Box<(Stmt, Span)>),
    While(Box<(Expr, Span)>, Box<(Stmt, Span)>),
    With(Box<(Expr, Span)>, Box<(Stmt, Span)>),
    Do(Box<(Stmt, Span)>, Box<(Expr, Span)>),
    For(Box<(Stmt, Span)>, Box<(Expr, Span)>, Box<(Stmt, Span)>, Box<(Stmt, Span)>),
    Switch(Box<(Expr, Span)>, Vec<(Stmt, Span)>),
    Case(Option<Box<(Expr, Span)>>),
    Jump(Jump),
    Return(Box<(Expr, Span)>),
    Error(Expr),
}

/// The label of a node.
pub enum Kind {
    /// The span of an operator.
    Operator,
    /// The span of a name: of what is called, of a field, of a declared
    /// variable.
    Name(Symbol),
    Value(Value),
    /// An expression that could not be parsed.
    Missing,
    /// Children: the operator, the operand.
    Unary(Unary),
    /// Children: the left operand, the operator, the right operand.
    Binary(Binary),
    /// Children: the base, the field's name.
    Field,
    /// Children: the base, then the indices.
    Index,
    /// Children: the name, then the arguments.
    Call,
    /// Children: the place, the operator, the value.
    Assign(Option<Op>),
    /// Children: the name, then the arguments.
    Invoke,
    /// Children: the names.
    Declare(Declare),
    Block,
    /// Children: the condition, the branch taken when it holds and, if
    /// there is one, the other branch.
    If,
    Repeat,
    While,
    With,
    Do,
    /// Children: the initialiser, the condition, the step, the body.
    For,
    /// Children: the value switched on, then the statements of the body.
    Switch,
    /// Children: the value of the case; none for the default case.
    Case,
    Jump(Jump),
    Return,
    /// A statement that could not be parsed. Child: the expression that was
    /// read in its place, with the statement's span.
    Invalid,
}

/// A node of the model: its label, its span and its children in source
/// order.
pub struct Tree {
    pub kind: Kind,
    pub span: Span,
    pub children: Seq<Tree>,
}

/// A node without children.
pub open spec fn leaf(kind: Kind, span: Span) -> Tree {
    Tree { kind, span, children: Seq::empty() }
}

/// The span of each node is in order and covers the spans of its children,
/// and so down the tree.
pub open spec fn well_spanned(t: Tree) -> bool
    decreases t,
{
    &&& t.span.low <= t.span.high
    &&& forall|i: int|
        0 <= i < t.children.len() ==> t.span.covers((#[trigger] t.children[i]).span)
            && well_spanned(t.children[i])
}

/// The models of a list of expressions.
pub open spec fn expr_trees(list: Seq<(Expr, Span)>) -> Seq<Tree>
    decreases list,
{
    Seq::new(
        list.len(),
        |i: int|
            if 0 <= i < list.len() {
                expr_tree(list[i].0, list[i].1)
            } else {
                leaf(Kind::Missing, Span { low: 0, high: 0 })
            },
    )
}

/// The model of an expression with its span.
#[verifier::opaque]
pub open spec fn expr_tree(e: Expr, span: Span) -> Tree
    decreases e,
{
    match e {
        Expr::Value(v) => leaf(Kind::Value(v), span),
        Expr::Error => leaf(Kind::Missing, span),
        Expr::Unary(op, operand) => Tree {
            kind: Kind::Unary(op.0),
            span,
            children: seq![leaf(Kind::Operator, op.1), expr_tree(operand.0, operand.1)],
        },
        Expr::Binary(op, left, right) => Tree {
            kind: Kind::Binary(op.0),
            span,
            children: seq![
                expr_tree(left.0, left.1),
                leaf(Kind::Operator, op.1),
                expr_tree(right.0, right.1),
            ],
        },
        Expr::Field(base, name) => Tree {
            kind: Kind::Field,
            span,
            children: seq![expr_tree(base.0, base.1), leaf(Kind::Name(name.0), name.1)],
        },
        Expr::Index(base, indices) => Tree {
            kind: Kind::Index,
            span,
            children: seq![expr_tree(base.0, base.1)] + expr_trees(indices@),
        },
        Expr::Call(call) => Tree {
            kind: Kind::Call,
            span,
            children: seq![leaf(Kind::Name(call.0.0), call.0.1)] + expr_trees(call.1@),
        },
    }
}

/// The models of a list of names.
pub open spec fn name_trees(list: Seq<(Symbol, Span)>) -> Seq<Tree> {
    Seq::new(list.len(), |i: int| leaf(Kind::Name(list[i].0), list[i].1))
}

/// The models of a list of statements.
pub open spec fn stmt_trees(list: Seq<(Stmt, Span)>) -> Seq<Tree>
    decreases list,
{
    Seq::new(
        list.len(),
        |i: int|
            if 0 <= i < list.len() {
                stmt_tree(list[i].0, list[i].1)
            } else {
                leaf(Kind::Block, Span { low: 0, high: 0 })
            },
    )
}

/// The model of a statement with its span.
#[verifier::opaque]
pub open spec fn stmt_tree(s: Stmt, span: Span) -> Tree
    decreases s,
{
    match s {
        Stmt::Assign(op, place, value) => Tree {
            kind: Kind::Assign(op.0),
            span,
            children: seq![
                expr_tree(place.0, place.1),
                leaf(Kind::Operator, op.1),
                expr_tree(value.0, value.1),
            ],
        },
        Stmt::Invoke(call) => Tree {
            kind: Kind::Invoke,
            span,
            children: seq![leaf(Kind::Name(call.0.0), call.0.1)] + expr_trees(call.1@),
        },
        Stmt::Declare(declare, names) => Tree {
            kind: Kind::Declare(declare),
            span,
            children: name_trees(names@),
        },
        Stmt::Block(stmts) => Tree { kind: Kind::Block, span, children: stmt_trees(stmts@) },
        Stmt::If(cond, yes, no) => Tree {
            kind: Kind::If,
            span,
            children: match no {
                Some(no) => seq![
                    expr_tree(cond.0, cond.1),
                    stmt_tree(yes.0, yes.1),
                    stmt_tree(no.0, no.1),
                ],
                None => seq![expr_tree(cond.0, cond.1), stmt_tree(yes.0, yes.1)],
            },
        },
        Stmt::Repeat(count, body) => Tree {
            kind: Kind::Repeat,
            span,
            children: seq![expr_tree(count.0, count.1), stmt_tree(body.0, body.1)],
        },
        Stmt::While(cond, body) => Tree {
            kind: Kind::While,
            span,
            children: seq![expr_tree(cond.0, cond.1), stmt_tree(body.0, body.1)],
        },
        Stmt::With(target, body) => Tree {
            kind: Kind::With,
            span,
            children: seq![expr_tree(target.0, target.1), stmt_tree(body.0, body.1)],
        },
        Stmt::Do(body, cond) => Tree {
            kind: Kind::Do,
            span,
            children: seq![stmt_tree(body.0, body.1), expr_tree(cond.0, cond.1)],
        },
        Stmt::For(init, cond, next, body) => Tree {
            kind: Kind::For,
            span,
            children: seq![
                stmt_tree(init.0, init.1),
                expr_tree(cond.0, cond.1),
                stmt_tree(next.0, next.1),
                stmt_tree(body.0, body.1),
            ],
        },
        Stmt::Switch(value, body) => Tree {
            kind: Kind::Switch,
            span,
            children: seq![expr_tree(value.0, value.1)] + stmt_trees(body@),
        },
        Stmt::Case(value) => Tree {
            kind: Kind::Case,
            span,
            children: match value {
                Some(value) => seq![expr_tree(value.0, value.1)],
                None => Seq::empty(),
            },
        },
        Stmt::Jump(jump) => leaf(Kind::Jump(jump), span),
        Stmt::Return(value) => Tree {
            kind: Kind::Return,
            span,
            children: seq![expr_tree(value.0, value.1)],
        },
        Stmt::Error(e) => Tree { kind: Kind::Invalid, span, children: seq![expr_tree(e, span)] },
    }
}

/// The model of an expression, one level down.
pub proof fn lemma_expr_tree(e: Expr, span: Span)
    ensures
        expr_tree(e, span) == (match e {
            Expr::Value(v) => leaf(Kind::Value(v), span),
            Expr::Error => leaf(Kind::Missing, span),
            Expr::Unary(op, operand) => Tree {
                kind: Kind::Unary(op.0),
                span,
                children: seq![leaf(Kind::Operator, op.1), expr_tree(operand.0, operand.1)],
            },
            Expr::Binary(op, left, right) => Tree {
                kind: Kind::Binary(op.0),
                span,
                children: seq![
                    expr_tree(left.0, left.1),
                    leaf(Kind::Operator, op.1),
                    expr_tree(right.0, right.1),
                ],
            },
            Expr::Field(base, name) => Tree {
                kind: Kind::Field,
                span,
                children: seq![expr_tree(base.0, base.1), leaf(Kind::Name(name.0), name.1)],
            },
            Expr::Index(base, indices) => Tree {
                kind: Kind::Index,
                span,
                children: seq![expr_tree(base.0, base.1)] + expr_trees(indices@),
            },
            Expr::Call(call) => Tree {
                kind: Kind::Call,
                span,
                children: seq![leaf(Kind::Name(call.0.0), call.0.1)] + expr_trees(call.1@),
            },
        }),
{
    reveal(expr_tree);
}

/// The model of a statement, one level down.
pub proof fn lemma_stmt_tree(s: Stmt, span: Span)
    ensures
        stmt_tree(s, span) == (match s {
            Stmt::Assign(op, place, value) => Tree {
                kind: Kind::Assign(op.0),
                span,
                children: seq![
                    expr_tree(place.0, place.1),
                    leaf(Kind::Operator, op.1),
                    expr_tree(value.0, value.1),
                ],
            },
            Stmt::Invoke(call) => Tree {
                kind: Kind::Invoke,
                span,
                children: seq![leaf(Kind::Name(call.0.0), call.0.1)] + expr_trees(call.1@),
            },
            Stmt::Declare(declare, names) => Tree {
                kind: Kind::Declare(declare),
                span,
                children: name_trees(names@),
            },
            Stmt::Block(stmts) => Tree { kind: Kind::Block, span, children: stmt_trees(stmts@) },
            Stmt::If(cond, yes, no) => Tree {
                kind: Kind::If,
                span,
                children: match no {
                    Some(no) => seq![
                        expr_tree(cond.0, cond.1),
                        stmt_tree(yes.0, yes.1),
                        stmt_tree(no.0, no.1),
                    ],
                    None => seq![expr_tree(cond.0, cond.1), stmt_tree(yes.0, yes.1)],
                },
            },
            Stmt::Repeat(count, body) => Tree {
                kind: Kind::Repeat,
                span,
                children: seq![expr_tree(count.0, count.1), stmt_tree(body.0, body.1)],
            },
            Stmt::While(cond, body) => Tree {
                kind: Kind::While,
                span,
                children: seq![expr_tree(cond.0, cond.1), stmt_tree(body.0, body.1)],
            },
            Stmt::With(target, body) => Tree {
                kind: Kind::With,
                span,
                children: seq![expr_tree(target.0, target.1), stmt_tree(body.0, body.1)],
            },
            Stmt::Do(body, cond) => Tree {
                kind: Kind::Do,
                span,
                children: seq![stmt_tree(body.0, body.1), expr_tree(cond.0, cond.1)],
            },
            Stmt::For(init, cond, next, body) => Tree {
                kind: Kind::For,
                span,
                children: seq![
                    stmt_tree(init.0, init.1),
                    expr_tree(cond.0, cond.1),
                    stmt_tree(next.0, next.1),
                    stmt_tree(body.0, body.1),
                ],
            },
            Stmt::Switch(value, body) => Tree {
                kind: Kind::Switch,
                span,
                children: seq![expr_tree(value.0, value.1)] + stmt_trees(body@),
            },
            Stmt::Case(value) => Tree {
                kind: Kind::Case,
                span,
                children: match value {
                    Some(value) => seq![expr_tree(value.0, value.1)],
                    None => Seq::empty(),
                },
            },
            Stmt::Jump(jump) => leaf(Kind::Jump(jump), span),
            Stmt::Return(value) => Tree {
                kind: Kind::Return,
                span,
                children: seq![expr_tree(value.0, value.1)],
            },
            Stmt::Error(e) => Tree {
                kind: Kind::Invalid,
                span,
                children: seq![expr_tree(e, span)],
            },
        }),
{
    reveal(stmt_tree);
    reveal(expr_tree);
}

/// The models of a list of expressions with one more.
pub proof fn lemma_expr_trees_push(list: Seq<(Expr, Span)>, last: (Expr, Span))
    ensures
        expr_trees(list.push(last)) =~= expr_trees(list) + seq![expr_tree(last.0, last.1)],
{
    reveal(expr_tree);
}

/// The models of a list of statements with one more.
pub proof fn lemma_stmt_trees_push(list: Seq<(Stmt, Span)>, last: (Stmt, Span))
    ensures
        stmt_trees(list.push(last)) =~= stmt_trees(list) + seq![stmt_tree(last.0, last.1)],
{
    reveal(stmt_tree);
}

/// The model of an expression with another span differs in the span alone.
pub proof fn lemma_expr_respan(e: Expr, a: Span, b: Span)
    ensures
        expr_tree(e, b) == (Tree {
            kind: expr_tree(e, a).kind,
            span: b,
            children: expr_tree(e, a).children,
        }),
{
    lemma_expr_tree(e, a);
    lemma_expr_tree(e, b);
}

} // verus!
