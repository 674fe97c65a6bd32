//! The grammar, as functions from a list of tokens to the tree that the
//! parser builds of them.
//!
//! Each function takes the tokens of a source text and the index of the
//! token at which it begins, and gives a `Parsed`: the tree, the number of
//! tokens that it takes up, and the diagnostics, in the order in which they
//! are reported. A function whose name ends in `_after` begins behind the
//! keyword or bracket that announces its construct, and is given the offset
//! at which the construct began.

use vstd::prelude::*;
use crate::diagnostics::{counted, Expected, Message, Report};
use crate::front::ast::{leaf, Binary, Declare, Jump, Kind, Number, Op, Tree, Unary, Value};
use crate::front::lexer::{run, Class, DOLLAR, DOT, Lexeme};
use crate::front::token::{BinOp, Delim, Token};
use crate::front::Span;
use crate::symbol::Keyword;

verus! {

/// The token at an index. From the last token on, which is `Eof`, it is
/// `Eof` with the span of the last.
#[verifier::opaque]
pub open spec fn at(ts: Seq<Lexeme>, p: int) -> Lexeme {
    if 0 <= p < ts.len() - 1 {
        ts[p]
    } else if ts.len() > 0 {
        Lexeme { token: Token::Eof, span: ts.last().span, text: Seq::empty() }
    } else {
        Lexeme { token: Token::Eof, span: Span { low: 0, high: 0 }, text: Seq::empty() }
    }
}

pub open spec fn tok(ts: Seq<Lexeme>, p: int) -> Token {
    at(ts, p).token
}

pub open spec fn sp(ts: Seq<Lexeme>, p: int) -> Span {
    at(ts, p).span
}

/// A token that is not `Eof` stands before the last.
pub proof fn lemma_before_end(ts: Seq<Lexeme>, p: int)
    ensures
        tok(ts, p) != Token::Eof ==> 0 <= p < ts.len() - 1,
{
    reveal(at);
}

/// How many tokens stand before the last, from index `p` on.
pub open spec fn remaining(ts: Seq<Lexeme>, p: int) -> nat {
    if p < ts.len() - 1 {
        (ts.len() - 1 - p) as nat
    } else {
        0
    }
}

/// The diagnostics reported so far, and their count, which stops at the
/// largest `u32`.
pub struct Log {
    pub reports: Seq<Report>,
    pub count: u32,
}

impl Log {
    /// The log with one more diagnostic.
    pub open spec fn add(self, report: Report) -> Log {
        Log { reports: self.reports.push(report), count: counted(self.count) }
    }
}

/// What a function of the grammar gives: the tree, how many tokens it takes
/// up, and the log after it.
pub struct Parsed {
    pub tree: Tree,
    pub used: nat,
    pub log: Log,
}

/// A list of trees, as the loops of the grammar give it. `high` is where
/// the list ends.
pub struct Listed {
    pub trees: Seq<Tree>,
    pub used: nat,
    pub log: Log,
    pub high: usize,
}

/// The operand of a prefix operator, a literal, a name or an expression in
/// parentheses; `closed` says that it is not a bare name or field.
pub struct Prefixed {
    pub tree: Tree,
    pub used: nat,
    pub log: Log,
    pub closed: bool,
}

/// One step of an expression behind its first operand.
pub struct Step {
    pub tree: Tree,
    pub closed: bool,
    pub used: nat,
    pub log: Log,
    pub more: bool,
}

/// What can stand between or behind operands.
#[derive(Clone, Copy, Debug, PartialEq, Eq, Structural)]
pub enum Infix {
    Binary(Binary),
    Field,
    Index,
    Call,
}

pub open spec fn node(kind: Kind, low: usize, high: usize, children: Seq<Tree>) -> Tree {
    Tree { kind, span: Span { low, high }, children }
}

/// That the token at `p` is not what was expected.
pub open spec fn unexpected(ts: Seq<Lexeme>, p: int, expected: Expected) -> Report {
    Report { span: sp(ts, p), message: Message::Unexpected(tok(ts, p), expected) }
}

/// The construct with the token that announced it.
pub open spec fn started(rest: Parsed) -> Parsed {
    Parsed { tree: rest.tree, used: 1 + rest.used, log: rest.log }
}

pub open spec fn binary_of(op: BinOp) -> Op {
    match op {
        BinOp::Plus => Op::Add,
        BinOp::Minus => Op::Subtract,
        BinOp::Star => Op::Multiply,
        BinOp::Slash => Op::Divide,
        BinOp::Ampersand => Op::BitAnd,
        BinOp::Pipe => Op::BitOr,
        BinOp::Caret => Op::BitXor,
    }
}

/// The binary operator that a token stands for.
pub open spec fn binary(token: Token) -> Option<Binary> {
    match token {
        Token::Lt => Some(Binary::Lt),
        Token::Le => Some(Binary::Le),
        Token::Eq => Some(Binary::Eq),
        Token::ColonEq => Some(Binary::Eq),
        Token::EqEq => Some(Binary::Eq),
        Token::Ne => Some(Binary::Ne),
        Token::LtGt => Some(Binary::Ne),
        Token::Ge => Some(Binary::Ge),
        Token::Gt => Some(Binary::Gt),
        Token::BinOp(op) => Some(Binary::Op(binary_of(op))),
        Token::Keyword(Keyword::Div) => Some(Binary::Div),
        Token::Keyword(Keyword::Mod) => Some(Binary::Mod),
        Token::And => Some(Binary::And),
        Token::Keyword(Keyword::And) => Some(Binary::And),
        Token::Or => Some(Binary::Or),
        Token::Keyword(Keyword::Or) => Some(Binary::Or),
        Token::Xor => Some(Binary::Xor),
        Token::Keyword(Keyword::Xor) => Some(Binary::Xor),
        Token::Shl => Some(Binary::ShiftLeft),
        Token::Shr => Some(Binary::ShiftRight),
        _ => None,
    }
}

/// How tightly a binary operator binds, from 1 to 6.
pub open spec fn binding(op: Binary) -> nat {
    match op {
        Binary::Op(Op::Multiply) | Binary::Op(Op::Divide) | Binary::Div | Binary::Mod => 6,
        Binary::Op(Op::Add) | Binary::Op(Op::Subtract) => 5,
        Binary::ShiftLeft | Binary::ShiftRight => 4,
        Binary::Op(Op::BitAnd) | Binary::Op(Op::BitXor) | Binary::Op(Op::BitOr) => 3,
        Binary::Lt | Binary::Le | Binary::Eq | Binary::Ne | Binary::Ge | Binary::Gt => 2,
        Binary::And | Binary::Or | Binary::Xor => 1,
    }
}

/// The level of a field, an index and a call.
pub const POSTFIX: usize = 7;

/// What a token means between or behind operands, and how tightly it
/// binds.
pub open spec fn infix(token: Token) -> Option<(Infix, nat)> {
    match token {
        Token::Dot => Some((Infix::Field, POSTFIX as nat)),
        Token::OpenDelim(Delim::Bracket) => Some((Infix::Index, POSTFIX as nat)),
        Token::OpenDelim(Delim::Paren) => Some((Infix::Call, POSTFIX as nat)),
        _ => match binary(token) {
            Some(op) => Some((Infix::Binary(op), binding(op))),
            None => None,
        },
    }
}

/// The operator of an assignment; the inner `None` is plain assignment.
pub open spec fn assignment(token: Token) -> Option<Option<Op>> {
    match token {
        Token::Eq => Some(None),
        Token::ColonEq => Some(None),
        Token::BinOpEq(op) => Some(Some(binary_of(op))),
        _ => None,
    }
}

/// The prefix operator that a token stands for.
pub open spec fn unary(token: Token) -> Option<Unary> {
    match token {
        Token::BinOp(BinOp::Plus) => Some(Unary::Positive),
        Token::BinOp(BinOp::Minus) => Some(Unary::Negate),
        Token::Bang => Some(Unary::Invert),
        Token::Keyword(Keyword::Not) => Some(Unary::Invert),
        Token::Tilde => Some(Unary::BitInvert),
        _ => None,
    }
}

/// Whether a keyword can stand where a name can.
pub open spec fn is_name(k: Keyword) -> bool {
    k == Keyword::True || k == Keyword::False || k == Keyword::Self_ || k == Keyword::Other || k
        == Keyword::All || k == Keyword::NoOne || k == Keyword::Global || k == Keyword::Local
}

/// Whether error recovery stops before the token: a statement may begin or
/// a block may end there.
pub open spec fn is_sync(token: Token) -> bool {
    match token {
        Token::Eof => true,
        Token::CloseDelim(Delim::Brace) => true,
        Token::Ident(_) => true,
        Token::OpenDelim(Delim::Paren) => true,
        Token::OpenDelim(Delim::Brace) => true,
        Token::Keyword(k) => is_name(k) && k != Keyword::True && k != Keyword::False || k
            == Keyword::End || k == Keyword::Var || k == Keyword::GlobalVar || k == Keyword::Begin
            || k == Keyword::If || k == Keyword::Repeat || k == Keyword::While || k
            == Keyword::With || k == Keyword::Do || k == Keyword::For || k == Keyword::Break || k
            == Keyword::Continue || k == Keyword::Exit || k == Keyword::Switch || k
            == Keyword::Case || k == Keyword::Default || k == Keyword::Return,
        _ => false,
    }
}

/// The value of a hexadecimal digit.
pub open spec fn hex_digit(b: u8) -> Option<nat> {
    if 48 <= b <= 57 {
        Some((b - 48) as nat)
    } else if 65 <= b <= 70 {
        Some((b - 55) as nat)
    } else if 97 <= b <= 102 {
        Some((b - 87) as nat)
    } else {
        None
    }
}

/// The number that hexadecimal digits stand for; `None` where there is no
/// digit or a byte is none.
pub open spec fn hex_value(digits: Seq<u8>) -> Option<nat>
    decreases digits.len(),
{
    if digits.len() == 0 {
        None
    } else {
        match hex_digit(digits.last()) {
            None => None,
            Some(d) => if digits.len() == 1 {
                Some(d)
            } else {
                match hex_value(digits.drop_last()) {
                    None => None,
                    Some(v) => Some(v * 16 + d),
                }
            },
        }
    }
}

/// Whether a text is digits, or digits, a point and digits.
pub open spec fn is_decimal(text: Seq<u8>) -> bool {
    let n: int = run(text, 0, Class::Digit) as int;
    n >= 1 && (n == text.len() || (text[n] == DOT && run(text, n + 1, Class::Digit) >= 1
        && n + 1 + run(text, n + 1, Class::Digit) == text.len()))
}

/// What a numeric literal with the given text stands for. After `$` come
/// hexadecimal digits of a number that fits 64 bits; else the text is a
/// decimal literal, which stands as the handle of its text.
pub open spec fn literal(text: Seq<u8>, symbol: crate::symbol::Symbol) -> Result<Number, Message> {
    if text.len() > 0 && text[0] == DOLLAR {
        match hex_value(text.skip(1)) {
            Some(v) => if v <= u64::MAX {
                Ok(Number::Integer(v as u64))
            } else {
                Err(Message::InvalidInteger)
            },
            None => Err(Message::InvalidInteger),
        }
    } else if is_decimal(text) {
        Ok(Number::Decimal(symbol))
    } else {
        Err(Message::InvalidNumber)
    }
}

/// How many semicolons stand in a row from index `p` on.
pub open spec fn semicolons(ts: Seq<Lexeme>, p: int) -> nat
    decreases remaining(ts, p),
{
    if tok(ts, p) == Token::Semicolon {
        proof {
            lemma_before_end(ts, p);
        }
        1 + semicolons(ts, p + 1)
    } else {
        0
    }
}

/// How many tokens error recovery skips from index `p` on: up to and with
/// a semicolon, or up to a token at which a statement may begin or a block
/// may end.
pub open spec fn skipped(ts: Seq<Lexeme>, p: int) -> nat
    decreases remaining(ts, p),
{
    if tok(ts, p) == Token::Semicolon {
        1
    } else if is_sync(tok(ts, p)) {
        0
    } else {
        proof {
            lemma_before_end(ts, p);
        }
        1 + skipped(ts, p + 1)
    }
}

/// The token at `p` if it is `token`, else a diagnostic: how many tokens
/// are taken, and the log after.
pub open spec fn expect(ts: Seq<Lexeme>, p: int, token: Token, log: Log) -> (nat, Log) {
    if tok(ts, p) == token {
        (1, log)
    } else {
        (0, log.add(unexpected(ts, p, Expected::Token(token))))
    }
}

/// Where a construct ends that `token` should close at index `p`: behind
/// the token if it is there, else before what stands in its place.
pub open spec fn closing(ts: Seq<Lexeme>, p: int, token: Token) -> usize {
    if tok(ts, p) == token {
        sp(ts, p).high
    } else {
        sp(ts, p).low
    }
}

/// The names that a declaration lists from index `p` on, each with an
/// optional comma behind it, and how many tokens they take up.
pub open spec fn declared(ts: Seq<Lexeme>, p: int) -> (Seq<Tree>, nat)
    decreases remaining(ts, p),
{
    match tok(ts, p) {
        Token::Ident(name) => {
            let k: nat = if tok(ts, p + 1) == Token::Comma {
                2
            } else {
                1
            };
            proof {
                lemma_before_end(ts, p);
            }
            let rest = declared(ts, p + k);
            (seq![leaf(Kind::Name(name), sp(ts, p))] + rest.0, k + rest.1)
        },
        _ => (Seq::empty(), 0),
    }
}

/// A statement with another span. The expression that stands in place of
/// an invalid statement has the statement's span.
pub open spec fn respan(t: Tree, span: Span) -> Tree {
    Tree {
        kind: t.kind,
        span,
        children: if t.kind is Invalid && t.children.len() == 1 {
            seq![Tree { kind: t.children[0].kind, span, children: t.children[0].children }]
        } else {
            t.children
        },
    }
}

/// An operand that is one token: a name or a literal.
pub open spec fn operand(value: Value, span: Span, log: Log) -> Prefixed {
    Prefixed { tree: leaf(Kind::Value(value), span), used: 1, log, closed: false }
}

/// An operand: a name, a literal, a prefix operator with its operand, or an
/// expression in parentheses.
pub open spec fn prefix(ts: Seq<Lexeme>, p: int, log: Log) -> Prefixed
    decreases remaining(ts, p), 1int,
{
    let token = tok(ts, p);
    let span = sp(ts, p);
    proof {
        lemma_before_end(ts, p);
    }
    match token {
        Token::Ident(name) => operand(Value::Ident(name), span, log),
        Token::String(contents) => operand(Value::String(contents), span, log),
        Token::Real(symbol) => match literal(at(ts, p).text, symbol) {
            Ok(number) => operand(Value::Real(number), span, log),
            Err(message) => operand(
                Value::Real(Number::Integer(0)),
                span,
                log.add(Report { span, message }),
            ),
        },
        Token::OpenDelim(Delim::Paren) => {
            let inner = expression(ts, p + 1, 0, log);
            let close = expect(
                ts,
                p + 1 + inner.used,
                Token::CloseDelim(Delim::Paren),
                inner.log,
            );
            Prefixed {
                tree: inner.tree,
                used: 1 + inner.used + close.0,
                log: close.1,
                closed: true,
            }
        },
        _ => if token matches Token::Keyword(k) && is_name(k) {
            operand(Value::Ident(token->Keyword_0.spec_symbol()), span, log)
        } else if unary(token).is_some() {
            let inner = expression(ts, p + 1, POSTFIX as nat, log);
            Prefixed {
                tree: node(
                    Kind::Unary(unary(token).unwrap()),
                    span.low,
                    inner.tree.span.high,
                    seq![leaf(Kind::Operator, span), inner.tree],
                ),
                used: 1 + inner.used,
                log: inner.log,
                closed: true,
            }
        } else {
            Prefixed {
                tree: leaf(Kind::Missing, Span { low: span.low, high: span.low }),
                used: 0,
                log: log.add(unexpected(ts, p, Expected::Expression)),
                closed: false,
            }
        },
    }
}

/// An expression whose operators bind at least as tightly as `min`.
pub open spec fn expression(ts: Seq<Lexeme>, p: int, min: nat, log: Log) -> Parsed
    decreases remaining(ts, p), 4int,
{
    let first = prefix(ts, p, log);
    let rest = climb(ts, p + first.used, first.tree, first.closed, min, first.log);
    Parsed { tree: rest.tree, used: first.used + rest.used, log: rest.log }
}

/// One field, index, call or binary operator behind an operand `left`, at
/// index `p` where the token stands for `op` at level `level`. `more` says
/// that the expression may go on behind it. An index follows only a bare
/// name or a field, and a call only a bare name.
pub open spec fn step(
    ts: Seq<Lexeme>,
    p: int,
    left: Tree,
    closed: bool,
    op: Infix,
    level: nat,
    log: Log,
) -> Step
    decreases remaining(ts, p), 2int,
{
    let done = Step { tree: left, closed, used: 0, log, more: false };
    proof {
        lemma_before_end(ts, p);
    }
    if tok(ts, p) == Token::Eof {
        done
    } else {
        match op {
            Infix::Call => match left.kind {
                Kind::Value(Value::Ident(name)) => if !closed {
                    let list = arguments(ts, p + 1, Delim::Paren, log);
                    Step {
                        tree: node(
                            Kind::Call,
                            left.span.low,
                            list.high,
                            seq![leaf(Kind::Name(name), left.span)] + list.trees,
                        ),
                        closed: true,
                        used: 1 + list.used,
                        log: list.log,
                        more: true,
                    }
                } else {
                    done
                },
                _ => done,
            },
            Infix::Index => if !closed && (left.kind is Field || left.kind matches Kind::Value(
                Value::Ident(_),
            )) {
                let list = arguments(ts, p + 1, Delim::Bracket, log);
                Step {
                    tree: node(Kind::Index, left.span.low, list.high, seq![left] + list.trees),
                    closed: false,
                    used: 1 + list.used,
                    log: list.log,
                    more: true,
                }
            } else {
                done
            },
            Infix::Field => match tok(ts, p + 1) {
                Token::Ident(name) => Step {
                    tree: node(
                        Kind::Field,
                        left.span.low,
                        sp(ts, p + 1).high,
                        seq![left, leaf(Kind::Name(name), sp(ts, p + 1))],
                    ),
                    closed: false,
                    used: 2,
                    log,
                    more: true,
                },
                _ => Step {
                    tree: left,
                    closed,
                    used: 1,
                    log: log.add(unexpected(ts, p + 1, Expected::Identifier)),
                    more: false,
                },
            },
            Infix::Binary(operator) => {
                let right = expression(ts, p + 1, level + 1, log);
                Step {
                    tree: node(
                        Kind::Binary(operator),
                        left.span.low,
                        right.tree.span.high,
                        seq![left, leaf(Kind::Operator, sp(ts, p)), right.tree],
                    ),
                    closed,
                    used: 1 + right.used,
                    log: right.log,
                    more: true,
                }
            },
        }
    }
}

/// What follows an operand `left` at index `p`: fields, indices, a call and
/// binary operators that bind at least as tightly as `min`, each taking what
/// stands before it as its left operand.
pub open spec fn climb(
    ts: Seq<Lexeme>,
    p: int,
    left: Tree,
    closed: bool,
    min: nat,
    log: Log,
) -> Parsed
    decreases remaining(ts, p), 3int,
{
    proof {
        lemma_before_end(ts, p);
    }
    match infix(tok(ts, p)) {
        None => Parsed { tree: left, used: 0, log },
        Some((op, level)) => if level < min {
            Parsed { tree: left, used: 0, log }
        } else {
            let one = step(ts, p, left, closed, op, level, log);
            if one.more && one.used >= 1 {
                let rest = climb(ts, p + one.used, one.tree, one.closed, min, one.log);
                Parsed { tree: rest.tree, used: one.used + rest.used, log: rest.log }
            } else {
                Parsed { tree: one.tree, used: one.used, log: one.log }
            }
        },
    }
}

/// The end of a list in brackets at index `p`: the closing bracket, or a
/// diagnostic where something else stands there.
pub open spec fn ending(ts: Seq<Lexeme>, p: int, close: Token, log: Log) -> Listed {
    if tok(ts, p) == close {
        Listed { trees: Seq::empty(), used: 1, log, high: sp(ts, p).high }
    } else {
        Listed {
            trees: Seq::empty(),
            used: 0,
            log: log.add(unexpected(ts, p, Expected::Either(close, Token::Comma))),
            high: sp(ts, p).low,
        }
    }
}

/// The arguments of a call or the indices of an array, from behind the
/// opening bracket to the closing one: expressions with commas between
/// them.
pub open spec fn arguments(ts: Seq<Lexeme>, p: int, delim: Delim, log: Log) -> Listed
    decreases remaining(ts, p), 5int,
{
    let close = Token::CloseDelim(delim);
    if tok(ts, p) == close || tok(ts, p) == Token::Eof {
        ending(ts, p, close, log)
    } else {
        let first = expression(ts, p, 0, log);
        let q = p + first.used;
        if tok(ts, q) == Token::Comma {
            proof {
                lemma_before_end(ts, q);
            }
            let rest = arguments(ts, q + 1, delim, first.log);
            Listed {
                trees: seq![first.tree] + rest.trees,
                used: first.used + 1 + rest.used,
                log: rest.log,
                high: rest.high,
            }
        } else {
            let end = ending(ts, q, close, first.log);
            Listed {
                trees: seq![first.tree],
                used: first.used + end.used,
                log: end.log,
                high: end.high,
            }
        }
    }
}

/// An assignment or a call that stands as a statement.
pub open spec fn assign_or_invoke(ts: Seq<Lexeme>, p: int, log: Log) -> Parsed
    decreases remaining(ts, p), 6int,
{
    let place = expression(ts, p, POSTFIX as nat, log);
    let q = p + place.used;
    let invalid = Tree { kind: Kind::Invalid, span: place.tree.span, children: seq![place.tree] };
    if place.tree.kind is Call {
        Parsed {
            tree: Tree {
                kind: Kind::Invoke,
                span: place.tree.span,
                children: place.tree.children,
            },
            used: place.used,
            log: place.log,
        }
    } else if place.tree.kind is Missing {
        Parsed { tree: invalid, used: place.used, log: place.log }
    } else {
        match assignment(tok(ts, q)) {
            None => Parsed {
                tree: invalid,
                used: place.used,
                log: place.log.add(unexpected(ts, q, Expected::AssignmentOperator)),
            },
            Some(op) => {
                let value = expression(ts, q + 1, 0, place.log);
                Parsed {
                    tree: node(
                        Kind::Assign(op),
                        sp(ts, p).low,
                        value.tree.span.high,
                        seq![place.tree, leaf(Kind::Operator, sp(ts, q)), value.tree],
                    ),
                    used: place.used + 1 + value.used,
                    log: value.log,
                }
            },
        }
    }
}

/// A declaration, from behind `var` or `globalvar`: names, then a
/// semicolon. An initialiser is reported and passed over.
pub open spec fn declare_after(
    ts: Seq<Lexeme>,
    p: int,
    low: usize,
    declare: Declare,
    log: Log,
) -> Parsed
    decreases remaining(ts, p), 6int,
{
    let names = declared(ts, p);
    let q = p + names.1;
    let (skip, early): (nat, Log) = if tok(ts, q) == Token::Eq || tok(ts, q) == Token::ColonEq {
        let value = expression(
            ts,
            q + 1,
            0,
            log.add(unexpected(ts, q, Expected::Token(Token::Semicolon))),
        );
        (1 + value.used, value.log)
    } else {
        (0, log)
    };
    let end = expect(ts, q + skip, Token::Semicolon, early);
    Parsed {
        tree: node(Kind::Declare(declare), low, closing(ts, q + skip, Token::Semicolon), names.0),
        used: names.1 + skip + end.0,
        log: end.1,
    }
}

/// Whether a list of statements ends before the token: at the end of the
/// source and, within a block, at `}` and `end`.
pub open spec fn ends_items(token: Token, nested: bool) -> bool {
    token == Token::Eof || (nested && (token == Token::CloseDelim(Delim::Brace) || token
        == Token::Keyword(Keyword::End)))
}

/// Statements in a row, up to the end of the source or, within a block, to
/// the token that closes it. What follows an invalid statement is skipped
/// up to where a statement may begin, and a token at which no statement
/// begins is passed over, so that each round takes at least one token.
/// `high` is where the last statement ends.
pub open spec fn items(ts: Seq<Lexeme>, p: int, nested: bool, log: Log) -> Listed
    decreases remaining(ts, p), 9int,
{
    if ends_items(tok(ts, p), nested) {
        Listed { trees: Seq::empty(), used: 0, log, high: sp(ts, p).low }
    } else {
        let first = statement(ts, p, log);
        let skip = if first.tree.kind is Invalid {
            skipped(ts, p + first.used)
        } else {
            0
        };
        let step: nat = if first.used + skip == 0 {
            1
        } else {
            first.used + skip
        };
        proof {
            lemma_before_end(ts, p);
        }
        let rest = items(ts, p + step, nested, first.log);
        Listed {
            trees: seq![first.tree] + rest.trees,
            used: step + rest.used,
            log: rest.log,
            high: if rest.trees.len() > 0 {
                rest.high
            } else {
                first.tree.span.high
            },
        }
    }
}

/// A block, from behind its opening token: statements, then `}` or `end`.
pub open spec fn block_after(ts: Seq<Lexeme>, p: int, low: usize, log: Log) -> Parsed
    decreases remaining(ts, p), 10int,
{
    let list = items(ts, p, true, log);
    let q = p + list.used;
    if tok(ts, q) == Token::Eof {
        Parsed {
            tree: node(Kind::Block, low, sp(ts, q).low, list.trees),
            used: list.used,
            log: list.log.add(
                unexpected(ts, q, Expected::Token(Token::CloseDelim(Delim::Brace))),
            ),
        }
    } else {
        Parsed {
            tree: node(Kind::Block, low, sp(ts, q).high, list.trees),
            used: list.used + 1,
            log: list.log,
        }
    }
}

/// From behind `if`: a condition, an optional `then`, a statement, and
/// optionally `else` and a statement.
pub open spec fn if_after(ts: Seq<Lexeme>, p: int, low: usize, log: Log) -> Parsed
    decreases remaining(ts, p), 11int,
{
    let cond = expression(ts, p, 0, log);
    let q = p + cond.used;
    let then: nat = if tok(ts, q) == Token::Keyword(Keyword::Then) {
        1
    } else {
        0
    };
    let yes = statement(ts, q + then, cond.log);
    let r = q + then + yes.used;
    if tok(ts, r) == Token::Keyword(Keyword::Else) {
        let no = statement(ts, r + 1, yes.log);
        Parsed {
            tree: node(Kind::If, low, no.tree.span.high, seq![cond.tree, yes.tree, no.tree]),
            used: cond.used + then + yes.used + 1 + no.used,
            log: no.log,
        }
    } else {
        Parsed {
            tree: node(Kind::If, low, yes.tree.span.high, seq![cond.tree, yes.tree]),
            used: cond.used + then + yes.used,
            log: yes.log,
        }
    }
}

/// From behind `repeat`: a count and a statement.
pub open spec fn repeat_after(ts: Seq<Lexeme>, p: int, low: usize, log: Log) -> Parsed
    decreases remaining(ts, p), 11int,
{
    let count = expression(ts, p, 0, log);
    let body = statement(ts, p + count.used, count.log);
    Parsed {
        tree: node(Kind::Repeat, low, body.tree.span.high, seq![count.tree, body.tree]),
        used: count.used + body.used,
        log: body.log,
    }
}

/// From behind `while` or `with`: an expression, an optional `do` and a
/// statement.
pub open spec fn while_after(ts: Seq<Lexeme>, p: int, low: usize, kind: Kind, log: Log) -> Parsed
    decreases remaining(ts, p), 11int,
{
    let head = expression(ts, p, 0, log);
    let q = p + head.used;
    let word: nat = if tok(ts, q) == Token::Keyword(Keyword::Do) {
        1
    } else {
        0
    };
    let body = statement(ts, q + word, head.log);
    Parsed {
        tree: node(kind, low, body.tree.span.high, seq![head.tree, body.tree]),
        used: head.used + word + body.used,
        log: body.log,
    }
}

/// From behind `do`: a statement, `until` and a condition.
pub open spec fn do_after(ts: Seq<Lexeme>, p: int, low: usize, log: Log) -> Parsed
    decreases remaining(ts, p), 11int,
{
    let body = statement(ts, p, log);
    let q = p + body.used;
    let until = expect(ts, q, Token::Keyword(Keyword::Until), body.log);
    let cond = expression(ts, q + until.0, 0, until.1);
    Parsed {
        tree: node(Kind::Do, low, cond.tree.span.high, seq![body.tree, cond.tree]),
        used: body.used + until.0 + cond.used,
        log: cond.log,
    }
}

/// From behind `for`: in parentheses a statement, a condition with an
/// optional semicolon and a statement; then the body.
pub open spec fn for_after(ts: Seq<Lexeme>, p: int, low: usize, log: Log) -> Parsed
    decreases remaining(ts, p), 11int,
{
    let open = expect(ts, p, Token::OpenDelim(Delim::Paren), log);
    let init = statement(ts, p + open.0, open.1);
    let q = p + open.0 + init.used;
    let cond = expression(ts, q, 0, init.log);
    let semi: nat = if tok(ts, q + cond.used) == Token::Semicolon {
        1
    } else {
        0
    };
    let r = q + cond.used + semi;
    let next = statement(ts, r, cond.log);
    let close = expect(ts, r + next.used, Token::CloseDelim(Delim::Paren), next.log);
    let body = statement(ts, r + next.used + close.0, close.1);
    Parsed {
        tree: node(
            Kind::For,
            low,
            body.tree.span.high,
            seq![init.tree, cond.tree, next.tree, body.tree],
        ),
        used: open.0 + init.used + cond.used + semi + next.used + close.0 + body.used,
        log: body.log,
    }
}

/// From behind `switch`: the value switched on and a block. What stands in
/// place of the block's opening token is reported and taken for it.
pub open spec fn switch_after(ts: Seq<Lexeme>, p: int, low: usize, log: Log) -> Parsed
    decreases remaining(ts, p), 11int,
{
    let value = expression(ts, p, 0, log);
    let q = p + value.used;
    let early = if tok(ts, q) == Token::OpenDelim(Delim::Brace) || tok(ts, q) == Token::Keyword(
        Keyword::Begin,
    ) {
        value.log
    } else {
        value.log.add(unexpected(ts, q, Expected::Token(Token::OpenDelim(Delim::Brace))))
    };
    let body = block_after(ts, q + 1, sp(ts, q).low, early);
    Parsed {
        tree: node(
            Kind::Switch,
            low,
            body.tree.span.high,
            seq![value.tree] + body.tree.children,
        ),
        used: value.used + 1 + body.used,
        log: body.log,
    }
}

/// From behind `return`: the value.
pub open spec fn return_after(ts: Seq<Lexeme>, p: int, low: usize, log: Log) -> Parsed
    decreases remaining(ts, p), 6int,
{
    let value = expression(ts, p, 0, log);
    Parsed {
        tree: node(Kind::Return, low, value.tree.span.high, seq![value.tree]),
        used: value.used,
        log: value.log,
    }
}

/// From behind `case` or `default`: the value if it is a case, and a
/// colon.
pub open spec fn case_after(ts: Seq<Lexeme>, p: int, low: usize, valued: bool, log: Log) -> Parsed
    decreases remaining(ts, p), 6int,
{
    let value = expression(ts, p, 0, log);
    let (used, after, children): (nat, Log, Seq<Tree>) = if valued {
        (value.used, value.log, seq![value.tree])
    } else {
        (0, log, Seq::empty())
    };
    let colon = expect(ts, p + used, Token::Colon, after);
    Parsed {
        tree: node(Kind::Case, low, closing(ts, p + used, Token::Colon), children),
        used: used + colon.0,
        log: colon.1,
    }
}

/// A statement without the semicolons behind it, told by its first token.
#[verifier::opaque]
pub open spec fn construct(ts: Seq<Lexeme>, p: int, log: Log) -> Parsed
    decreases remaining(ts, p), 7int,
{
    let low = sp(ts, p).low;
    proof {
        lemma_before_end(ts, p);
    }
    match tok(ts, p) {
        Token::Keyword(Keyword::Var) => started(
            declare_after(ts, p + 1, low, Declare::Local, log),
        ),
        Token::Keyword(Keyword::GlobalVar) => started(
            declare_after(ts, p + 1, low, Declare::Global, log),
        ),
        Token::OpenDelim(Delim::Brace) => started(block_after(ts, p + 1, low, log)),
        Token::Keyword(Keyword::Begin) => started(block_after(ts, p + 1, low, log)),
        Token::Keyword(Keyword::If) => started(if_after(ts, p + 1, low, log)),
        Token::Keyword(Keyword::Repeat) => started(repeat_after(ts, p + 1, low, log)),
        Token::Keyword(Keyword::While) => started(while_after(ts, p + 1, low, Kind::While, log)),
        Token::Keyword(Keyword::With) => started(while_after(ts, p + 1, low, Kind::With, log)),
        Token::Keyword(Keyword::Do) => started(do_after(ts, p + 1, low, log)),
        Token::Keyword(Keyword::For) => started(for_after(ts, p + 1, low, log)),
        Token::Keyword(Keyword::Switch) => started(switch_after(ts, p + 1, low, log)),
        Token::Keyword(Keyword::Break) => Parsed {
            tree: leaf(Kind::Jump(Jump::Break), sp(ts, p)),
            used: 1,
            log,
        },
        Token::Keyword(Keyword::Continue) => Parsed {
            tree: leaf(Kind::Jump(Jump::Continue), sp(ts, p)),
            used: 1,
            log,
        },
        Token::Keyword(Keyword::Exit) => Parsed {
            tree: leaf(Kind::Jump(Jump::Exit), sp(ts, p)),
            used: 1,
            log,
        },
        Token::Keyword(Keyword::Return) => started(return_after(ts, p + 1, low, log)),
        Token::Keyword(Keyword::Case) => started(case_after(ts, p + 1, low, true, log)),
        Token::Keyword(Keyword::Default) => started(case_after(ts, p + 1, low, false, log)),
        _ => assign_or_invoke(ts, p, log),
    }
}

/// A construct that began at index `p`, with the semicolons behind it,
/// which its span takes in.
#[verifier::opaque]
pub open spec fn finish(ts: Seq<Lexeme>, p: int, inner: Parsed) -> Parsed {
    let q = p + inner.used;
    let n = semicolons(ts, q);
    let high = if n > 0 {
        sp(ts, q + n - 1).high
    } else {
        inner.tree.span.high
    };
    Parsed {
        tree: respan(inner.tree, Span { low: sp(ts, p).low, high }),
        used: inner.used + n,
        log: inner.log,
    }
}

/// A statement: a construct and the semicolons behind it.
pub open spec fn statement(ts: Seq<Lexeme>, p: int, log: Log) -> Parsed
    decreases remaining(ts, p), 8int,
{
    finish(ts, p, construct(ts, p, log))
}

/// A statement is its construct with the semicolons behind it.
pub proof fn lemma_statement_unfold(ts: Seq<Lexeme>, p: int, log: Log)
    ensures
        statement(ts, p, log) == finish(ts, p, construct(ts, p, log)),
{
    reveal(construct);
}

/// A program: a block, or statements up to the end that count as one.
/// Behind a block, what stands before the end of the source is reported.
pub open spec fn program(ts: Seq<Lexeme>, p: int, log: Log) -> Parsed {
    let low = sp(ts, p).low;
    if tok(ts, p) == Token::OpenDelim(Delim::Brace) {
        let block = statement(ts, p, log);
        let q = p + block.used;
        Parsed {
            tree: block.tree,
            used: block.used,
            log: if tok(ts, q) == Token::Eof {
                block.log
            } else {
                block.log.add(unexpected(ts, q, Expected::Token(Token::Eof)))
            },
        }
    } else {
        let list = items(ts, p, false, log);
        Parsed { tree: node(Kind::Block, low, list.high, list.trees), used: list.used, log: list.log }
    }
}

} // verus!
