//! What holds of every tree that the grammar builds: the span of each node
//! covers the spans of its children.
//!
//! Each lemma is about one function of the grammar and follows its
//! recursion. A tree that is built from index `p` on, of `used` tokens, is
//! `sound` there: it lies between the token at `p` and the token behind
//! those it took, and is well spanned.

use vstd::prelude::*;
use crate::front::ast::{leaf, well_spanned, Declare, Kind, Tree, Value};
use crate::front::grammar::{
    arguments, assign_or_invoke, assignment, at, block_after, case_after, climb, closing,
    construct, declare_after, declared, do_after, ending, ends_items, expect, expression, finish,
    for_after, if_after, infix, is_name, items, lemma_statement_unfold, prefix, program, remaining,
    repeat_after, respan, return_after, semicolons, skipped, sp, statement, step, switch_after,
    tok, unary, while_after, Infix, Listed, Log, POSTFIX,
};
use crate::front::lexer::{ordered, Lexeme};
use crate::front::token::{Delim, Token};
use crate::front::Span;
use crate::symbol::Keyword;

verus! {

/// The spans of the tokens follow one another, and only `Eof`, which stands
/// at the end, is empty.
#[verifier::opaque]
pub open spec fn rising(ts: Seq<Lexeme>) -> bool {
    &&& forall|p: int| 0 <= p ==> (#[trigger] sp(ts, p)).low <= sp(ts, p).high
    &&& forall|p: int, q: int|
        0 <= p < q ==> (#[trigger] sp(ts, p)).high <= (#[trigger] sp(ts, q)).low
    &&& forall|p: int|
        0 <= p && #[trigger] tok(ts, p) != Token::Eof ==> sp(ts, p).low < sp(ts, p).high
    &&& forall|p: int| #[trigger] tok(ts, p) != Token::Eof ==> 0 <= p < ts.len() - 1
}

/// The spans of the tokens of a source text follow one another.
pub proof fn lemma_rising(ts: Seq<Lexeme>)
    requires
        ordered(ts),
    ensures
        rising(ts),
{
    reveal(at);
    reveal(rising);
    assert forall|p: int, q: int| 0 <= p < q implies (#[trigger] sp(ts, p)).high <= (
    #[trigger] sp(ts, q)).low by {
        if p < ts.len() - 1 {
            if q < ts.len() - 1 {
                assert(ts[p].span.high <= ts[q].span.low);
            } else {
                assert(ts[p].span.high <= ts[ts.len() - 1].span.low);
            }
        }
    }
}

/// A token does not begin before one that stands before it, nor before
/// that one ends.
pub proof fn lemma_order(ts: Seq<Lexeme>, a: int, b: int)
    requires
        rising(ts),
        0 <= a <= b,
    ensures
        sp(ts, a).low <= sp(ts, a).high,
        sp(ts, b).low <= sp(ts, b).high,
        sp(ts, a).low <= sp(ts, b).low,
        a < b ==> sp(ts, a).high <= sp(ts, b).low,
{
    reveal(rising);
}

/// A token that is not `Eof` stands before the last and is not empty.
pub proof fn lemma_token(ts: Seq<Lexeme>, p: int)
    requires
        rising(ts),
    ensures
        tok(ts, p) != Token::Eof ==> 0 <= p < ts.len() - 1 && sp(ts, p).low < sp(ts, p).high,
{
    reveal(rising);
}

/// A sound tree lies between any token before it and any token behind it.
pub proof fn lemma_rebase(ts: Seq<Lexeme>, q: int, tree: Tree, used: nat, a: int, b: int)
    requires
        rising(ts),
        sound(ts, q, tree, used),
        0 <= a <= q,
        q + used <= b,
    ensures
        sp(ts, a).low <= tree.span.low,
        tree.span.low <= tree.span.high,
        tree.span.high <= sp(ts, b).low,
        well_spanned(tree),
{
    lemma_order(ts, a, q);
    lemma_order(ts, q + used, b);
}

/// A tree that was built from index `p` on lies between the token at `p`
/// and the token behind those it took, and each of its nodes covers its
/// children.
pub open spec fn sound(ts: Seq<Lexeme>, p: int, tree: Tree, used: nat) -> bool {
    &&& sp(ts, p).low <= tree.span.low <= tree.span.high <= sp(ts, p + used).low
    &&& well_spanned(tree)
}

/// Every tree of a list lies between `low` and `high` and is well spanned.
pub open spec fn sound_trees(trees: Seq<Tree>, low: usize, high: usize) -> bool {
    forall|i: int|
        0 <= i < trees.len() ==> low <= (#[trigger] trees[i]).span.low && trees[i].span.high
            <= high && well_spanned(trees[i])
}

/// Every tree of a list that was built from index `p` on lies between the
/// token at `p` and the end of the list, which is not past the token
/// behind those that the list took.
pub open spec fn sound_list(ts: Seq<Lexeme>, p: int, list: Listed) -> bool {
    &&& sp(ts, p).low <= list.high <= sp(ts, p + list.used).low
    &&& sound_trees(list.trees, sp(ts, p).low, list.high)
}

/// An invalid statement holds the expression read in its place, with its
/// own span.
pub open spec fn invalid_holds_one(t: Tree) -> bool {
    t.kind is Invalid ==> t.children.len() == 1 && t.children[0].span == t.span
}

/// A node is well spanned if its span is in order and covers its children,
/// which are well spanned.
pub proof fn lemma_node(kind: Kind, span: Span, first: Seq<Tree>, rest: Seq<Tree>)
    requires
        span.low <= span.high,
        sound_trees(first, span.low, span.high),
        sound_trees(rest, span.low, span.high),
    ensures
        well_spanned(Tree { kind, span, children: first + rest }),
        sound_trees(first + rest, span.low, span.high),
{
    let children = first + rest;
    assert forall|i: int| 0 <= i < children.len() implies span.low <= (
    #[trigger] children[i]).span.low && children[i].span.high <= span.high && well_spanned(
        children[i],
    ) by {
        if i < first.len() {
            assert(children[i] == first[i]);
        } else {
            assert(children[i] == rest[i - first.len()]);
        }
    }
}

/// The trees of a list lie within any wider bounds.
pub proof fn lemma_widen(trees: Seq<Tree>, low: usize, high: usize, lower: usize, higher: usize)
    requires
        sound_trees(trees, low, high),
        lower <= low,
        high <= higher,
    ensures
        sound_trees(trees, lower, higher),
{
}

/// The children of a well-spanned tree lie within its span.
pub proof fn lemma_children(t: Tree)
    requires
        well_spanned(t),
    ensures
        sound_trees(t.children, t.span.low, t.span.high),
{
}

/// A sound statement is sound with a span that covers its own.
pub proof fn lemma_respan_sound(t: Tree, span: Span)
    requires
        well_spanned(t),
        span.covers(t.span),
        invalid_holds_one(t),
    ensures
        well_spanned(respan(t, span)),
{
    reveal_with_fuel(well_spanned, 2);
    let r = respan(t, span);
    assert forall|i: int| 0 <= i < r.children.len() implies span.covers(
        (#[trigger] r.children[i]).span,
    ) && well_spanned(r.children[i]) by {
        if t.kind is Invalid {
            let child = t.children[0];
            assert(well_spanned(child));
            assert forall|j: int| 0 <= j < child.children.len() implies span.covers(
                (#[trigger] child.children[j]).span,
            ) && well_spanned(child.children[j]) by {}
        } else {
            assert(r.children[i] == t.children[i]);
        }
    }
}

/// A node of two sound children that follow one another is sound.
pub proof fn lemma_two(
    ts: Seq<Lexeme>,
    start: int,
    kind: Kind,
    a: int,
    first: Tree,
    used_a: nat,
    b: int,
    second: Tree,
    used_b: nat,
)
    requires
        rising(ts),
        0 <= start <= a,
        a + used_a <= b,
        sound(ts, a, first, used_a),
        sound(ts, b, second, used_b),
    ensures
        sound(
            ts,
            start,
            Tree {
                kind,
                span: Span { low: sp(ts, start).low, high: second.span.high },
                children: seq![first, second],
            },
            (b + used_b - start) as nat,
        ),
{
    reveal_with_fuel(well_spanned, 2);
    lemma_rebase(ts, a, first, used_a, start, b);
    lemma_rebase(ts, b, second, used_b, start, b + used_b);
}

/// A node of three sound children that follow one another is sound.
pub proof fn lemma_three(
    ts: Seq<Lexeme>,
    start: int,
    kind: Kind,
    a: int,
    first: Tree,
    used_a: nat,
    b: int,
    second: Tree,
    used_b: nat,
    c: int,
    third: Tree,
    used_c: nat,
)
    requires
        rising(ts),
        0 <= start <= a,
        a + used_a <= b,
        b + used_b <= c,
        sound(ts, a, first, used_a),
        sound(ts, b, second, used_b),
        sound(ts, c, third, used_c),
    ensures
        sound(
            ts,
            start,
            Tree {
                kind,
                span: Span { low: sp(ts, start).low, high: third.span.high },
                children: seq![first, second, third],
            },
            (c + used_c - start) as nat,
        ),
{
    reveal_with_fuel(well_spanned, 2);
    lemma_rebase(ts, a, first, used_a, start, b);
    lemma_rebase(ts, b, second, used_b, start, c);
    lemma_rebase(ts, c, third, used_c, start, c + used_c);
}

/// A node of four sound children that follow one another is sound.
pub proof fn lemma_four(
    ts: Seq<Lexeme>,
    start: int,
    kind: Kind,
    a: int,
    first: Tree,
    used_a: nat,
    b: int,
    second: Tree,
    used_b: nat,
    c: int,
    third: Tree,
    used_c: nat,
    d: int,
    fourth: Tree,
    used_d: nat,
)
    requires
        rising(ts),
        0 <= start <= a,
        a + used_a <= b,
        b + used_b <= c,
        c + used_c <= d,
        sound(ts, a, first, used_a),
        sound(ts, b, second, used_b),
        sound(ts, c, third, used_c),
        sound(ts, d, fourth, used_d),
    ensures
        sound(
            ts,
            start,
            Tree {
                kind,
                span: Span { low: sp(ts, start).low, high: fourth.span.high },
                children: seq![first, second, third, fourth],
            },
            (d + used_d - start) as nat,
        ),
{
    reveal_with_fuel(well_spanned, 2);
    lemma_rebase(ts, a, first, used_a, start, b);
    lemma_rebase(ts, b, second, used_b, start, c);
    lemma_rebase(ts, c, third, used_c, start, d);
    lemma_rebase(ts, d, fourth, used_d, start, d + used_d);
}

/// The names of a declaration are leaves that lie between the token at `p`
/// and the token behind them.
pub proof fn lemma_declared(ts: Seq<Lexeme>, p: int)
    requires
        rising(ts),
        0 <= p,
    ensures
        sound_trees(declared(ts, p).0, sp(ts, p).low, sp(ts, p + declared(ts, p).1).low),
    decreases remaining(ts, p),
{
    reveal(rising);
    match tok(ts, p) {
        Token::Ident(name) => {
            let k: nat = if tok(ts, p + 1) == Token::Comma {
                2
            } else {
                1
            };
            lemma_declared(ts, p + k);
            let rest = declared(ts, p + k);
            let high = sp(ts, p + k + rest.1).low;
            lemma_widen(rest.0, sp(ts, p + k).low, high, sp(ts, p).low, high);
            let first = seq![leaf(Kind::Name(name), sp(ts, p))];
            assert(sound_trees(first, sp(ts, p).low, high)) by {
                reveal_with_fuel(well_spanned, 2);
            }
            assert forall|i: int| 0 <= i < (first + rest.0).len() implies sp(ts, p).low <= (
            #[trigger] (first + rest.0)[i]).span.low && (first + rest.0)[i].span.high <= high
                && well_spanned((first + rest.0)[i]) by {
                if i >= 1 {
                    assert((first + rest.0)[i] == rest.0[i - 1]);
                } else {
                    assert((first + rest.0)[i] == first[0]);
                }
            }
        },
        _ => {},
    }
}

/// An operand is sound.
pub proof fn lemma_prefix(ts: Seq<Lexeme>, p: int, log: Log)
    requires
        rising(ts),
        0 <= p,
    ensures
        sound(ts, p, prefix(ts, p, log).tree, prefix(ts, p, log).used),
    decreases remaining(ts, p), 1int,
{
    reveal(rising);
    reveal_with_fuel(well_spanned, 2);
    let token = tok(ts, p);
    match token {
        Token::Ident(_) => {},
        Token::String(_) => {},
        Token::Real(_) => {},
        Token::OpenDelim(Delim::Paren) => {
            lemma_expression(ts, p + 1, 0, log);
        },
        _ => {
            if token matches Token::Keyword(k) && is_name(k) {
            } else if unary(token).is_some() {
                lemma_expression(ts, p + 1, POSTFIX as nat, log);
            }
        },
    }
}

/// An expression is sound.
pub proof fn lemma_expression(ts: Seq<Lexeme>, p: int, min: nat, log: Log)
    requires
        rising(ts),
        0 <= p,
    ensures
        sound(ts, p, expression(ts, p, min, log).tree, expression(ts, p, min, log).used),
    decreases remaining(ts, p), 4int,
{
    lemma_prefix(ts, p, log);
    let first = prefix(ts, p, log);
    lemma_climb(ts, p + first.used, first.tree, first.closed, min, first.log, p);
}

/// One step behind a sound operand, which began at index `start`, gives a
/// sound operand.
pub proof fn lemma_step(
    ts: Seq<Lexeme>,
    p: int,
    left: Tree,
    closed: bool,
    op: Infix,
    level: nat,
    log: Log,
    start: int,
)
    requires
        rising(ts),
        0 <= start <= p,
        sound(ts, start, left, (p - start) as nat),
    ensures
        sound(
            ts,
            start,
            step(ts, p, left, closed, op, level, log).tree,
            (p + step(ts, p, left, closed, op, level, log).used - start) as nat,
        ),
    decreases remaining(ts, p), 2int,
{
    reveal(rising);
    reveal_with_fuel(well_spanned, 2);
    if tok(ts, p) != Token::Eof {
        match op {
            Infix::Call => match left.kind {
                Kind::Value(Value::Ident(name)) => {
                    if !closed {
                        lemma_arguments(ts, p + 1, Delim::Paren, log);
                        let list = arguments(ts, p + 1, Delim::Paren, log);
                        let span = Span { low: left.span.low, high: list.high };
                        lemma_widen(
                            list.trees,
                            sp(ts, p + 1).low,
                            list.high,
                            span.low,
                            span.high,
                        );
                        lemma_node(
                            Kind::Call,
                            span,
                            seq![leaf(Kind::Name(name), left.span)],
                            list.trees,
                        );
                    }
                },
                _ => {},
            },
            Infix::Index => {
                if !closed && (left.kind is Field || left.kind matches Kind::Value(
                    Value::Ident(_),
                )) {
                    lemma_arguments(ts, p + 1, Delim::Bracket, log);
                    let list = arguments(ts, p + 1, Delim::Bracket, log);
                    let span = Span { low: left.span.low, high: list.high };
                    lemma_widen(list.trees, sp(ts, p + 1).low, list.high, span.low, span.high);
                    lemma_node(Kind::Index, span, seq![left], list.trees);
                }
            },
            Infix::Field => {},
            Infix::Binary(_) => {
                lemma_expression(ts, p + 1, level + 1, log);
            },
        }
    }
}

/// What follows a sound operand, which began at index `start`, gives a
/// sound expression.
pub proof fn lemma_climb(
    ts: Seq<Lexeme>,
    p: int,
    left: Tree,
    closed: bool,
    min: nat,
    log: Log,
    start: int,
)
    requires
        rising(ts),
        0 <= start <= p,
        sound(ts, start, left, (p - start) as nat),
    ensures
        sound(
            ts,
            start,
            climb(ts, p, left, closed, min, log).tree,
            (p + climb(ts, p, left, closed, min, log).used - start) as nat,
        ),
    decreases remaining(ts, p), 3int,
{
    lemma_token(ts, p);
    match infix(tok(ts, p)) {
        None => {},
        Some((op, level)) => {
            if level >= min {
                lemma_step(ts, p, left, closed, op, level, log, start);
                let one = step(ts, p, left, closed, op, level, log);
                if one.more && one.used >= 1 {
                    lemma_climb(ts, p + one.used, one.tree, one.closed, min, one.log, start);
                }
            }
        },
    }
}

/// A list of arguments is sound.
pub proof fn lemma_arguments(ts: Seq<Lexeme>, p: int, delim: Delim, log: Log)
    requires
        rising(ts),
        0 <= p,
    ensures
        sound_list(ts, p, arguments(ts, p, delim, log)),
    decreases remaining(ts, p), 5int,
{
    reveal(rising);
    let close = Token::CloseDelim(delim);
    if tok(ts, p) == close || tok(ts, p) == Token::Eof {
    } else {
        lemma_expression(ts, p, 0, log);
        let first = expression(ts, p, 0, log);
        let q = p + first.used;
        if tok(ts, q) == Token::Comma {
            lemma_arguments(ts, q + 1, delim, first.log);
            let rest = arguments(ts, q + 1, delim, first.log);
            lemma_widen(rest.trees, sp(ts, q + 1).low, rest.high, sp(ts, p).low, rest.high);
            lemma_node(
                Kind::Block,
                Span { low: sp(ts, p).low, high: rest.high },
                seq![first.tree],
                rest.trees,
            );
        } else {
            let end = ending(ts, q, close, first.log);
            assert(sound_trees(seq![first.tree], sp(ts, p).low, end.high));
        }
    }
}

/// An assignment or a call is sound, and if it is invalid it holds the
/// expression read in its place.
pub proof fn lemma_assign_or_invoke(ts: Seq<Lexeme>, p: int, log: Log)
    requires
        rising(ts),
        0 <= p,
    ensures
        sound(ts, p, assign_or_invoke(ts, p, log).tree, assign_or_invoke(ts, p, log).used),
        invalid_holds_one(assign_or_invoke(ts, p, log).tree),
    decreases remaining(ts, p), 6int,
{
    reveal(rising);
    reveal_with_fuel(well_spanned, 2);
    lemma_expression(ts, p, POSTFIX as nat, log);
    let place = expression(ts, p, POSTFIX as nat, log);
    let q = p + place.used;
    if place.tree.kind is Call {
        lemma_children(place.tree);
    } else if place.tree.kind is Missing {
    } else {
        match assignment(tok(ts, q)) {
            None => {},
            Some(_) => {
                lemma_expression(ts, q + 1, 0, place.log);
            },
        }
    }
}

/// A declaration is sound.
pub proof fn lemma_declare_after(ts: Seq<Lexeme>, p: int, low: usize, declare: Declare, log: Log)
    requires
        rising(ts),
        1 <= p,
        low == sp(ts, p - 1).low,
    ensures
        sound(
            ts,
            p - 1,
            declare_after(ts, p, low, declare, log).tree,
            1 + declare_after(ts, p, low, declare, log).used,
        ),
        !(declare_after(ts, p, low, declare, log).tree.kind is Invalid),
    decreases remaining(ts, p), 6int,
{
    reveal(rising);
    lemma_declared(ts, p);
    let names = declared(ts, p);
    let q = p + names.1;
    let skip: nat = if tok(ts, q) == Token::Eq || tok(ts, q) == Token::ColonEq {
        1 + expression(
            ts,
            q + 1,
            0,
            log.add(
                crate::front::grammar::unexpected(
                    ts,
                    q,
                    crate::diagnostics::Expected::Token(Token::Semicolon),
                ),
            ),
        ).used
    } else {
        0
    };
    let high = closing(ts, q + skip, Token::Semicolon);
    lemma_widen(names.0, sp(ts, p).low, sp(ts, q).low, low, high);
    lemma_node(Kind::Declare(declare), Span { low, high }, names.0, Seq::empty());
    assert(names.0 + Seq::<Tree>::empty() =~= names.0);
}

/// What stands behind `return` is sound.
pub proof fn lemma_return_after(ts: Seq<Lexeme>, p: int, low: usize, log: Log)
    requires
        rising(ts),
        1 <= p,
        low == sp(ts, p - 1).low,
    ensures
        sound(
            ts,
            p - 1,
            return_after(ts, p, low, log).tree,
            1 + return_after(ts, p, low, log).used,
        ),
        !(return_after(ts, p, low, log).tree.kind is Invalid),
    decreases remaining(ts, p), 6int,
{
    reveal_with_fuel(well_spanned, 2);
    lemma_expression(ts, p, 0, log);
    let value = expression(ts, p, 0, log);
    lemma_rebase(ts, p, value.tree, value.used, p - 1, p + value.used);
}

/// What stands behind `case` or `default` is sound.
pub proof fn lemma_case_after(ts: Seq<Lexeme>, p: int, low: usize, valued: bool, log: Log)
    requires
        rising(ts),
        1 <= p,
        low == sp(ts, p - 1).low,
    ensures
        sound(
            ts,
            p - 1,
            case_after(ts, p, low, valued, log).tree,
            1 + case_after(ts, p, low, valued, log).used,
        ),
        !(case_after(ts, p, low, valued, log).tree.kind is Invalid),
    decreases remaining(ts, p), 6int,
{
    reveal(rising);
    reveal_with_fuel(well_spanned, 2);
    lemma_expression(ts, p, 0, log);
}

/// A construct is sound, and if it is invalid it holds the expression read
/// in its place.
pub proof fn lemma_construct(ts: Seq<Lexeme>, p: int, log: Log)
    requires
        rising(ts),
        0 <= p,
    ensures
        sound(ts, p, construct(ts, p, log).tree, construct(ts, p, log).used),
        invalid_holds_one(construct(ts, p, log).tree),
    decreases remaining(ts, p), 7int,
{
    lemma_token(ts, p);
    reveal(construct);
    let low = sp(ts, p).low;
    match tok(ts, p) {
        Token::Keyword(Keyword::Var) => {
            lemma_declare_after(ts, p + 1, low, Declare::Local, log);
        },
        Token::Keyword(Keyword::GlobalVar) => {
            lemma_declare_after(ts, p + 1, low, Declare::Global, log);
        },
        Token::OpenDelim(Delim::Brace) => {
            lemma_block_after(ts, p + 1, low, log);
        },
        Token::Keyword(Keyword::Begin) => {
            lemma_block_after(ts, p + 1, low, log);
        },
        Token::Keyword(Keyword::If) => {
            lemma_if_after(ts, p + 1, low, log);
        },
        Token::Keyword(Keyword::Repeat) => {
            lemma_repeat_after(ts, p + 1, low, log);
        },
        Token::Keyword(Keyword::While) => {
            lemma_while_after(ts, p + 1, low, Kind::While, log);
        },
        Token::Keyword(Keyword::With) => {
            lemma_while_after(ts, p + 1, low, Kind::With, log);
        },
        Token::Keyword(Keyword::Do) => {
            lemma_do_after(ts, p + 1, low, log);
        },
        Token::Keyword(Keyword::For) => {
            lemma_for_after(ts, p + 1, low, log);
        },
        Token::Keyword(Keyword::Switch) => {
            lemma_switch_after(ts, p + 1, low, log);
        },
        Token::Keyword(Keyword::Break) => {
            reveal_with_fuel(well_spanned, 2);
            lemma_order(ts, p, p + 1);
        },
        Token::Keyword(Keyword::Continue) => {
            reveal_with_fuel(well_spanned, 2);
            lemma_order(ts, p, p + 1);
        },
        Token::Keyword(Keyword::Exit) => {
            reveal_with_fuel(well_spanned, 2);
            lemma_order(ts, p, p + 1);
        },
        Token::Keyword(Keyword::Return) => {
            lemma_return_after(ts, p + 1, low, log);
        },
        Token::Keyword(Keyword::Case) => {
            lemma_case_after(ts, p + 1, low, true, log);
        },
        Token::Keyword(Keyword::Default) => {
            lemma_case_after(ts, p + 1, low, false, log);
        },
        _ => {
            lemma_assign_or_invoke(ts, p, log);
        },
    }
}

/// A statement is sound, and begins where its first token begins.
pub proof fn lemma_statement(ts: Seq<Lexeme>, p: int, log: Log)
    requires
        rising(ts),
        0 <= p,
    ensures
        sound(ts, p, statement(ts, p, log).tree, statement(ts, p, log).used),
        statement(ts, p, log).tree.span.low == sp(ts, p).low,
    decreases remaining(ts, p), 8int,
{
    reveal(finish);
    lemma_statement_unfold(ts, p, log);
    lemma_construct(ts, p, log);
    let inner = construct(ts, p, log);
    let q = p + inner.used;
    let n = semicolons(ts, q);
    lemma_order(ts, p, q);
    if n > 0 {
        lemma_order(ts, q, q + n - 1);
        lemma_order(ts, q + n - 1, q + n);
    }
    lemma_respan_sound(inner.tree, statement(ts, p, log).tree.span);
}

/// A list of statements is sound.
pub proof fn lemma_items(ts: Seq<Lexeme>, p: int, nested: bool, log: Log)
    requires
        rising(ts),
        0 <= p,
    ensures
        sound_list(ts, p, items(ts, p, nested, log)),
    decreases remaining(ts, p), 9int,
{
    reveal(rising);
    if !ends_items(tok(ts, p), nested) {
        lemma_statement(ts, p, log);
        let first = statement(ts, p, log);
        let skip = if first.tree.kind is Invalid {
            skipped(ts, p + first.used)
        } else {
            0
        };
        let step: nat = if first.used + skip == 0 {
            1
        } else {
            first.used + skip
        };
        lemma_items(ts, p + step, nested, first.log);
        let rest = items(ts, p + step, nested, first.log);
        let high = items(ts, p, nested, log).high;
        if rest.trees.len() > 0 {
            lemma_widen(rest.trees, sp(ts, p + step).low, rest.high, sp(ts, p).low, high);
            assert(well_spanned(rest.trees[0]));
        }
        lemma_node(Kind::Block, Span { low: sp(ts, p).low, high }, seq![first.tree], rest.trees);
    }
}

/// A block is sound.
pub proof fn lemma_block_after(ts: Seq<Lexeme>, p: int, low: usize, log: Log)
    requires
        rising(ts),
        1 <= p,
        low == sp(ts, p - 1).low,
    ensures
        sound(
            ts,
            p - 1,
            block_after(ts, p, low, log).tree,
            1 + block_after(ts, p, low, log).used,
        ),
        block_after(ts, p, low, log).tree.kind is Block,
        block_after(ts, p, low, log).tree.span.low == low,
    decreases remaining(ts, p), 10int,
{
    reveal(rising);
    lemma_items(ts, p, true, log);
    let list = items(ts, p, true, log);
    let span = block_after(ts, p, low, log).tree.span;
    lemma_widen(list.trees, sp(ts, p).low, list.high, span.low, span.high);
    lemma_node(Kind::Block, span, list.trees, Seq::empty());
    assert(list.trees + Seq::<Tree>::empty() =~= list.trees);
}

/// What stands behind `if` is sound.
pub proof fn lemma_if_after(ts: Seq<Lexeme>, p: int, low: usize, log: Log)
    requires
        rising(ts),
        1 <= p,
        low == sp(ts, p - 1).low,
    ensures
        sound(ts, p - 1, if_after(ts, p, low, log).tree, 1 + if_after(ts, p, low, log).used),
        !(if_after(ts, p, low, log).tree.kind is Invalid),
    decreases remaining(ts, p), 11int,
{
    lemma_expression(ts, p, 0, log);
    let cond = expression(ts, p, 0, log);
    let q = p + cond.used;
    let then: nat = if tok(ts, q) == Token::Keyword(Keyword::Then) {
        1
    } else {
        0
    };
    lemma_statement(ts, q + then, cond.log);
    let yes = statement(ts, q + then, cond.log);
    let r = q + then + yes.used;
    if tok(ts, r) == Token::Keyword(Keyword::Else) {
        lemma_statement(ts, r + 1, yes.log);
        let no = statement(ts, r + 1, yes.log);
        lemma_three(
            ts,
            p - 1,
            Kind::If,
            p,
            cond.tree,
            cond.used,
            q + then,
            yes.tree,
            yes.used,
            r + 1,
            no.tree,
            no.used,
        );
    } else {
        lemma_two(ts, p - 1, Kind::If, p, cond.tree, cond.used, q + then, yes.tree, yes.used);
    }
}

/// What stands behind `repeat` is sound.
pub proof fn lemma_repeat_after(ts: Seq<Lexeme>, p: int, low: usize, log: Log)
    requires
        rising(ts),
        1 <= p,
        low == sp(ts, p - 1).low,
    ensures
        sound(
            ts,
            p - 1,
            repeat_after(ts, p, low, log).tree,
            1 + repeat_after(ts, p, low, log).used,
        ),
        !(repeat_after(ts, p, low, log).tree.kind is Invalid),
    decreases remaining(ts, p), 11int,
{
    lemma_expression(ts, p, 0, log);
    let count = expression(ts, p, 0, log);
    let q = p + count.used;
    lemma_statement(ts, q, count.log);
    let body = statement(ts, q, count.log);
    lemma_two(ts, p - 1, Kind::Repeat, p, count.tree, count.used, q, body.tree, body.used);
}

/// What stands behind `while` or `with` is sound.
pub proof fn lemma_while_after(ts: Seq<Lexeme>, p: int, low: usize, kind: Kind, log: Log)
    requires
        rising(ts),
        1 <= p,
        low == sp(ts, p - 1).low,
        !(kind is Invalid),
    ensures
        sound(
            ts,
            p - 1,
            while_after(ts, p, low, kind, log).tree,
            1 + while_after(ts, p, low, kind, log).used,
        ),
        !(while_after(ts, p, low, kind, log).tree.kind is Invalid),
    decreases remaining(ts, p), 11int,
{
    lemma_expression(ts, p, 0, log);
    let head = expression(ts, p, 0, log);
    let q = p + head.used;
    let word: nat = if tok(ts, q) == Token::Keyword(Keyword::Do) {
        1
    } else {
        0
    };
    lemma_statement(ts, q + word, head.log);
    let body = statement(ts, q + word, head.log);
    lemma_two(ts, p - 1, kind, p, head.tree, head.used, q + word, body.tree, body.used);
}

/// What stands behind `do` is sound.
pub proof fn lemma_do_after(ts: Seq<Lexeme>, p: int, low: usize, log: Log)
    requires
        rising(ts),
        1 <= p,
        low == sp(ts, p - 1).low,
    ensures
        sound(ts, p - 1, do_after(ts, p, low, log).tree, 1 + do_after(ts, p, low, log).used),
        !(do_after(ts, p, low, log).tree.kind is Invalid),
    decreases remaining(ts, p), 11int,
{
    lemma_statement(ts, p, log);
    let body = statement(ts, p, log);
    let q = p + body.used;
    let until = expect(ts, q, Token::Keyword(Keyword::Until), body.log);
    lemma_expression(ts, q + until.0, 0, until.1);
    let cond = expression(ts, q + until.0, 0, until.1);
    lemma_two(ts, p - 1, Kind::Do, p, body.tree, body.used, q + until.0, cond.tree, cond.used);
}

/// What stands behind `for` is sound.
pub proof fn lemma_for_after(ts: Seq<Lexeme>, p: int, low: usize, log: Log)
    requires
        rising(ts),
        1 <= p,
        low == sp(ts, p - 1).low,
    ensures
        sound(ts, p - 1, for_after(ts, p, low, log).tree, 1 + for_after(ts, p, low, log).used),
        !(for_after(ts, p, low, log).tree.kind is Invalid),
    decreases remaining(ts, p), 11int,
{
    let open = expect(ts, p, Token::OpenDelim(Delim::Paren), log);
    lemma_statement(ts, p + open.0, open.1);
    let init = statement(ts, p + open.0, open.1);
    let q = p + open.0 + init.used;
    lemma_expression(ts, q, 0, init.log);
    let cond = expression(ts, q, 0, init.log);
    let semi: nat = if tok(ts, q + cond.used) == Token::Semicolon {
        1
    } else {
        0
    };
    let r = q + cond.used + semi;
    lemma_statement(ts, r, cond.log);
    let next = statement(ts, r, cond.log);
    let close = expect(ts, r + next.used, Token::CloseDelim(Delim::Paren), next.log);
    let b = r + next.used + close.0;
    lemma_statement(ts, b, close.1);
    let body = statement(ts, b, close.1);
    lemma_four(
        ts,
        p - 1,
        Kind::For,
        p + open.0,
        init.tree,
        init.used,
        q,
        cond.tree,
        cond.used,
        r,
        next.tree,
        next.used,
        b,
        body.tree,
        body.used,
    );
}

/// What stands behind `switch` is sound.
pub proof fn lemma_switch_after(ts: Seq<Lexeme>, p: int, low: usize, log: Log)
    requires
        rising(ts),
        1 <= p,
        low == sp(ts, p - 1).low,
    ensures
        sound(
            ts,
            p - 1,
            switch_after(ts, p, low, log).tree,
            1 + switch_after(ts, p, low, log).used,
        ),
        !(switch_after(ts, p, low, log).tree.kind is Invalid),
    decreases remaining(ts, p), 11int,
{
    lemma_expression(ts, p, 0, log);
    let value = expression(ts, p, 0, log);
    let q = p + value.used;
    let early = if tok(ts, q) == Token::OpenDelim(Delim::Brace) || tok(ts, q) == Token::Keyword(
        Keyword::Begin,
    ) {
        value.log
    } else {
        value.log.add(
            crate::front::grammar::unexpected(
                ts,
                q,
                crate::diagnostics::Expected::Token(Token::OpenDelim(Delim::Brace)),
            ),
        )
    };
    lemma_block_after(ts, q + 1, sp(ts, q).low, early);
    let body = block_after(ts, q + 1, sp(ts, q).low, early);
    let span = Span { low, high: body.tree.span.high };
    lemma_rebase(ts, p, value.tree, value.used, p - 1, q);
    lemma_order(ts, p - 1, q);
    lemma_children(body.tree);
    lemma_widen(
        body.tree.children,
        body.tree.span.low,
        body.tree.span.high,
        span.low,
        span.high,
    );
    assert(sound_trees(seq![value.tree], span.low, span.high));
    lemma_node(Kind::Switch, span, seq![value.tree], body.tree.children);
}

/// The span of every node of the tree of a program covers the spans of
/// the node's children.
pub proof fn lemma_program(ts: Seq<Lexeme>, p: int, log: Log)
    requires
        rising(ts),
        0 <= p,
    ensures
        sound(ts, p, program(ts, p, log).tree, program(ts, p, log).used),
{
    if tok(ts, p) == Token::OpenDelim(Delim::Brace) {
        lemma_statement(ts, p, log);
    } else {
        lemma_items(ts, p, false, log);
        let list = items(ts, p, false, log);
        let span = Span { low: sp(ts, p).low, high: list.high };
        lemma_node(Kind::Block, span, list.trees, Seq::empty());
        assert(list.trees + Seq::<Tree>::empty() =~= list.trees);
    }
}

} // verus!
