//! The action parser: from the actions of an event to a syntax tree.
//!
//! An action that calls a function becomes a call with the arguments as
//! expressions; a question becomes an `if` over the next action, with the
//! action behind an `else` as its other branch; `begin` and `end` enclose a
//! block; the other kinds become the statements of their names. An action
//! that applies to another instance is wrapped in a `with`. The texts of
//! the arguments are parsed as source text is; the offsets of each begin
//! where the line index of the actions says.

use vstd::prelude::*;
use crate::diagnostics::{
    all_known, lemma_rendered_extends, lemma_rendered_joins, lemma_rendered_prefix, rendered,
    ErrorPrinter, Expected,
};
use crate::front::ast::{
    expr_tree, expr_trees, leaf, lemma_expr_tree, lemma_expr_trees_push, lemma_stmt_tree,
    lemma_stmt_trees_push, stmt_tree, stmt_trees, well_spanned, Call, Expr, Jump, Kind, Number, Op, Stmt, Tree,
    Unary, Value,
};
use crate::front::grammar::{at, expression, program, tok, unexpected, Log};
use crate::front::lexer::{lemma_state_after, lemma_stream_ordered};
use crate::front::sound::{
    lemma_children, lemma_expression, lemma_node, lemma_program, lemma_rising, lemma_widen, sound,
    sound_trees,
};
use crate::front::lexer::{state_after, stream, Lexer};
use crate::front::parser::Parser;
use crate::front::token::Token;
use crate::front::Span;
use crate::project::{
    acts, base, fits, lemma_base_rises, lemma_width_rises, width, Act, Action, ActionKind, Target,
};
use crate::symbol::{extends, interned, lemma_interned, Interner, Keyword, Symbol};

verus! {

/// The names that the interner holds and the log of the error printer.
pub struct Gen {
    pub names: Seq<Seq<u8>>,
    pub log: Log,
}

/// The interner and the error printer, which go from one argument to the
/// next.
pub struct State<'f> {
    pub interner: Interner,
    pub errors: ErrorPrinter<'f>,
    /// What the error printer had written when the parsing of the event
    /// began.
    pub written: Ghost<Seq<u8>>,
    /// How many diagnostics it had reported then.
    pub reported: Ghost<int>,
}

impl<'f> State<'f> {
    pub open spec fn gen(&self) -> Gen {
        Gen {
            names: self.interner@,
            log: Log { reports: self.errors.reports@, count: self.errors.count },
        }
    }

    /// The interner and the line index are well formed, the interner holds
    /// the names of the function and of the tokens of the diagnostics, and
    /// the error printer has written the lines of the diagnostics that it
    /// has reported since the parsing of the event began.
    pub open spec fn wf(&self) -> bool {
        &&& self.interner.wf()
        &&& self.errors.lines.wf()
        &&& self.errors.name.known(self.interner@)
        &&& 0 <= self.reported@ <= self.errors.reports@.len()
        &&& all_known(
            self.errors.reports@,
            self.interner@,
            self.reported@,
            self.errors.reports@.len() as int,
        )
        &&& self.errors.write@ == self.written@ + rendered(
            self.errors.name,
            self.errors.lines.parts(),
            self.errors.lines.length(),
            self.interner@,
            self.errors.reports@,
            self.reported@,
            self.errors.reports@.len() as int,
        )
    }

    /// The error printer names the same function and has the same lines,
    /// and the parsing of the event began where it did.
    pub open spec fn same_printer(&self, before: &Self) -> bool {
        &&& self.errors.name == before.errors.name
        &&& self.errors.lines == before.errors.lines
        &&& self.written@ == before.written@
        &&& self.reported@ == before.reported@
        &&& extends(self.interner@, before.interner@)
    }
}

/// What an action, with those that belong to it, becomes: the tree, how
/// many actions it takes up, and the names and the log after it.
pub struct Stepped {
    pub tree: Tree,
    pub used: nat,
    pub gen: Gen,
}

/// What a list of actions becomes.
pub struct Listing {
    pub trees: Seq<Tree>,
    pub used: nat,
    pub gen: Gen,
}

/// A text that is parsed as an expression, at the absolute offset
/// `offset`. What stands behind the expression is reported.
#[verifier::opaque]
pub open spec fn argument(text: Seq<u8>, offset: int, g: Gen) -> (Tree, Gen) {
    let ts = stream(text, offset, 0, g.names);
    let e = expression(ts, 0, 0, g.log);
    (
        e.tree,
        Gen {
            names: state_after(text, offset, 0, g.names, e.used + 1).1,
            log: if tok(ts, e.used as int) == Token::Eof {
                e.log
            } else {
                e.log.add(unexpected(ts, e.used as int, Expected::Token(Token::Eof)))
            },
        },
    )
}

/// A text that is parsed as a program, at the absolute offset `offset`.
#[verifier::opaque]
pub open spec fn embedded(text: Seq<u8>, offset: int, g: Gen) -> (Tree, Gen) {
    let ts = stream(text, offset, 0, g.names);
    let p = program(ts, 0, g.log);
    (p.tree, Gen { names: state_after(text, offset, 0, g.names, p.used + 1).1, log: p.log })
}

/// The text of the argument with index `j`; empty where the action has
/// fewer arguments.
pub open spec fn text_of(a: Act, j: int) -> Seq<u8> {
    if 0 <= j < a.arguments.len() {
        a.arguments[j]
    } else {
        Seq::empty()
    }
}

/// The offset at which the argument with index `j` of the action with index
/// `i` begins; the end of the action's offsets where it has fewer
/// arguments.
pub open spec fn place(list: Seq<Act>, i: int, j: int) -> int {
    let a = list[i];
    (base(list, i) + width(
        a.arguments,
        if j < a.arguments.len() {
            j
        } else {
            a.arguments.len() as int
        },
    )) as int
}

/// The offsets of `used` actions from the one with index `i` on.
pub open spec fn extent(list: Seq<Act>, i: int, used: nat) -> Span {
    Span { low: base(list, i) as usize, high: base(list, i + used) as usize }
}

/// The empty span at which the action with index `i` begins.
pub open spec fn origin(list: Seq<Act>, i: int) -> Span {
    Span { low: base(list, i) as usize, high: base(list, i) as usize }
}

/// The arguments of the action with index `i`, from the one with index `j`
/// on, as expressions.
pub open spec fn arguments_from(list: Seq<Act>, i: int, j: int, g: Gen) -> (Seq<Tree>, Gen)
    decreases list[i].arguments.len() - j,
{
    if j < 0 || j >= list[i].arguments.len() {
        (Seq::empty(), g)
    } else {
        let first = argument(list[i].arguments[j], place(list, i, j), g);
        let rest = arguments_from(list, i, j + 1, first.1);
        (seq![first.0] + rest.0, rest.1)
    }
}

/// The call of the function of the action with index `i`: its name, which
/// is interned first, and its arguments.
pub open spec fn call(list: Seq<Act>, i: int, g: Gen) -> (Tree, Gen) {
    let name = interned(g.names, list[i].name);
    let args = arguments_from(list, i, 0, Gen { names: name.0, log: g.log });
    (
        Tree {
            kind: Kind::Call,
            span: extent(list, i, 1),
            children: seq![leaf(Kind::Name(Symbol { index: name.1 as usize }), origin(list, i))]
                + args.0,
        },
        args.1,
    )
}

/// The value that stands for a target in code.
pub open spec fn target_value(target: Target) -> Value {
    match target {
        Target::Own => Value::Ident(Keyword::Self_.spec_symbol()),
        Target::Other => Value::Ident(Keyword::Other.spec_symbol()),
        Target::Object(index) => Value::Real(Number::Integer(index as u64)),
    }
}

/// A statement that applies to a target: the statement itself if the
/// target is the instance itself, else a `with` around it, which begins
/// where the action begins.
pub open spec fn applied(list: Seq<Act>, i: int, inner: Tree) -> Tree {
    match list[i].target {
        Target::Own => inner,
        target => Tree {
            kind: Kind::With,
            span: Span { low: base(list, i) as usize, high: inner.span.high },
            children: seq![leaf(Kind::Value(target_value(target)), origin(list, i)), inner],
        },
    }
}

/// How many actions there are from index `i` on.
pub open spec fn left(list: Seq<Act>, i: int) -> nat {
    if i < list.len() {
        (list.len() - i) as nat
    } else {
        0
    }
}

/// The action with index `i` and those that belong to it, applied to the
/// target of the action.
pub open spec fn act(list: Seq<Act>, i: int, g: Gen) -> Stepped
    decreases left(list, i), 3int,
{
    if i < 0 || i >= list.len() {
        Stepped {
            tree: Tree { kind: Kind::Block, span: origin(list, i), children: Seq::empty() },
            used: 0,
            gen: g,
        }
    } else {
        let inner = plain(list, i, g);
        Stepped { tree: applied(list, i, inner.tree), used: inner.used, gen: inner.gen }
    }
}

/// The condition of the question with index `i`: the call of its function,
/// inverted if the action says so.
pub open spec fn condition(list: Seq<Act>, i: int, g: Gen) -> Tree {
    let called = call(list, i, g);
    if list[i].negate {
        Tree {
            kind: Kind::Unary(Unary::Invert),
            span: extent(list, i, 1),
            children: seq![leaf(Kind::Operator, origin(list, i)), called.0],
        }
    } else {
        called.0
    }
}

/// The action with index `i` and those that belong to it, whatever its
/// target.
pub open spec fn plain(list: Seq<Act>, i: int, g: Gen) -> Stepped
    decreases left(list, i), 2int,
{
    let a = list[i];
    if i < 0 || i >= list.len() {
        Stepped { tree: leaf(Kind::Block, origin(list, i)), used: 0, gen: g }
    } else {
        match a.kind {
        ActionKind::Begin => {
            let inside = block(list, i + 1, g);
            let used: nat = if i + 1 + inside.used < list.len() {
                inside.used + 2
            } else {
                inside.used + 1
            };
            Stepped {
                tree: Tree {
                    kind: Kind::Block,
                    span: extent(list, i, used),
                    children: inside.trees,
                },
                used,
                gen: inside.gen,
            }
        },
        ActionKind::End => Stepped {
            tree: Tree { kind: Kind::Block, span: extent(list, i, 1), children: Seq::empty() },
            used: 1,
            gen: g,
        },
        ActionKind::Else => Stepped {
            tree: Tree { kind: Kind::Block, span: extent(list, i, 1), children: Seq::empty() },
            used: 1,
            gen: g,
        },
        ActionKind::Exit => Stepped {
            tree: leaf(Kind::Jump(Jump::Exit), extent(list, i, 1)),
            used: 1,
            gen: g,
        },
        ActionKind::Repeat => {
            let count = argument(text_of(a, 0), place(list, i, 0), g);
            let body = act(list, i + 1, count.1);
            Stepped {
                tree: Tree {
                    kind: Kind::Repeat,
                    span: extent(list, i, 1 + body.used),
                    children: seq![count.0, body.tree],
                },
                used: 1 + body.used,
                gen: body.gen,
            }
        },
        ActionKind::Variable => {
            let variable = argument(text_of(a, 0), place(list, i, 0), g);
            let value = argument(text_of(a, 1), place(list, i, 1), variable.1);
            Stepped {
                tree: Tree {
                    kind: Kind::Assign(
                        if a.relative {
                            Some(Op::Add)
                        } else {
                            None
                        },
                    ),
                    span: extent(list, i, 1),
                    children: seq![
                        variable.0,
                        leaf(Kind::Operator, origin(list, i)),
                        value.0,
                    ],
                },
                used: 1,
                gen: value.1,
            }
        },
        ActionKind::Code => {
            let code = embedded(text_of(a, 0), place(list, i, 0), g);
            Stepped { tree: code.0, used: 1, gen: code.1 }
        },
        ActionKind::Normal => {
            let called = call(list, i, g);
            if !a.question {
                Stepped {
                    tree: Tree {
                        kind: Kind::Invoke,
                        span: extent(list, i, 1),
                        children: called.0.children,
                    },
                    used: 1,
                    gen: called.1,
                }
            } else {
                let cond = condition(list, i, g);
                let yes = act(list, i + 1, called.1);
                let next = i + 1 + yes.used;
                if next < list.len() && list[next].kind == ActionKind::Else {
                    let no = act(list, next + 1, yes.gen);
                    Stepped {
                        tree: Tree {
                            kind: Kind::If,
                            span: extent(list, i, 2 + yes.used + no.used),
                            children: seq![cond, yes.tree, no.tree],
                        },
                        used: 2 + yes.used + no.used,
                        gen: no.gen,
                    }
                } else {
                    Stepped {
                        tree: Tree {
                            kind: Kind::If,
                            span: extent(list, i, 1 + yes.used),
                            children: seq![cond, yes.tree],
                        },
                        used: 1 + yes.used,
                        gen: yes.gen,
                    }
                }
            }
        },
        }
    }
}

/// The actions of a block, from the one with index `i` up to the `end`
/// that closes the block or to the last action.
pub open spec fn block(list: Seq<Act>, i: int, g: Gen) -> Listing
    decreases left(list, i), 4int,
{
    if i < 0 || i >= list.len() || list[i].kind == ActionKind::End {
        Listing { trees: Seq::empty(), used: 0, gen: g }
    } else {
        let first = act(list, i, g);
        let step: nat = if first.used == 0 {
            1
        } else {
            first.used
        };
        let rest = block(list, i + step, first.gen);
        Listing { trees: seq![first.tree] + rest.trees, used: step + rest.used, gen: rest.gen }
    }
}

/// The actions of an event, from the one with index `i` to the last. An
/// `end` that closes no block counts as an empty block.
pub open spec fn sequence(list: Seq<Act>, i: int, g: Gen) -> Listing
    decreases left(list, i), 4int,
{
    if i < 0 || i >= list.len() {
        Listing { trees: Seq::empty(), used: 0, gen: g }
    } else {
        let first = act(list, i, g);
        let step: nat = if first.used == 0 {
            1
        } else {
            first.used
        };
        let rest = sequence(list, i + step, first.gen);
        Listing { trees: seq![first.tree] + rest.trees, used: step + rest.used, gen: rest.gen }
    }
}

/// The tree of an event: a block of its actions.
pub open spec fn event(list: Seq<Act>, g: Gen) -> (Tree, Gen) {
    let all = sequence(list, 0, g);
    (Tree { kind: Kind::Block, span: extent(list, 0, list.len()), children: all.trees }, all.gen)
}

/// A text parsed as an expression.
pub fn parse_argument<'f>(text: &[u8], offset: usize, state: State<'f>) -> (r: (
    (Expr, Span),
    State<'f>,
))
    requires
        offset + text@.len() <= usize::MAX,
        state.wf(),
    ensures
        expr_tree(r.0.0, r.0.1) == argument(text@, offset as int, state.gen()).0,
        r.1.gen() == argument(text@, offset as int, state.gen()).1,
        r.1.wf(),
        r.1.same_printer(&state),
{
    proof {
        reveal(argument);
    }
    let State { interner, errors, written, reported } = state;
    let ghost names = interner@;
    let ghost reports = errors.reports@;
    let reader = Lexer::new(text, offset, interner);
    let mut parser = Parser::new(reader, errors);
    proof {
        parser.lemma_wf();
    }
    let e = parser.parse_expression(0);
    parser.expect_end();
    proof {
        parser.lemma_wf();
    }
    let (reader, errors) = parser.into_parts();
    let interner = reader.into_interner();
    proof {
        let name = errors.name;
        let parts = errors.lines.parts();
        let length = errors.lines.length();
        let after = errors.reports@;
        let middle = reports.len() as int;
        lemma_rendered_extends(name, parts, length, names, interner@, reports, reported@, middle);
        assert forall|i: int| reported@ <= i < middle implies after[i] == reports[i] by {
            assert(after.subrange(0, middle)[i] == reports[i]);
        }
        lemma_rendered_prefix(name, parts, length, interner@, reports, after, reported@, middle);
        lemma_rendered_joins(
            name,
            parts,
            length,
            interner@,
            after,
            reported@,
            middle,
            after.len() as int,
        );
        assert(errors.write@ =~= written@ + rendered(
            name,
            parts,
            length,
            interner@,
            after,
            reported@,
            after.len() as int,
        ));
    }
    (e, State { interner, errors, written, reported })
}

/// A text parsed as a program.
pub fn parse_code<'f>(text: &[u8], offset: usize, state: State<'f>) -> (r: (
    (Stmt, Span),
    State<'f>,
))
    requires
        offset + text@.len() <= usize::MAX,
        state.wf(),
    ensures
        stmt_tree(r.0.0, r.0.1) == embedded(text@, offset as int, state.gen()).0,
        embedded(text@, offset as int, state.gen()).0.span == r.0.1,
        r.1.gen() == embedded(text@, offset as int, state.gen()).1,
        r.1.wf(),
        r.1.same_printer(&state),
{
    proof {
        reveal(embedded);
    }
    let State { interner, errors, written, reported } = state;
    let ghost names = interner@;
    let ghost reports = errors.reports@;
    let reader = Lexer::new(text, offset, interner);
    let mut parser = Parser::new(reader, errors);
    proof {
        parser.lemma_wf();
    }
    let program = parser.parse_program();
    proof {
        parser.lemma_wf();
    }
    let (reader, errors) = parser.into_parts();
    let interner = reader.into_interner();
    proof {
        let name = errors.name;
        let parts = errors.lines.parts();
        let length = errors.lines.length();
        let after = errors.reports@;
        let middle = reports.len() as int;
        lemma_rendered_extends(name, parts, length, names, interner@, reports, reported@, middle);
        assert forall|i: int| reported@ <= i < middle implies after[i] == reports[i] by {
            assert(after.subrange(0, middle)[i] == reports[i]);
        }
        lemma_rendered_prefix(name, parts, length, interner@, reports, after, reported@, middle);
        lemma_rendered_joins(
            name,
            parts,
            length,
            interner@,
            after,
            reported@,
            middle,
            after.len() as int,
        );
        assert(errors.write@ =~= written@ + rendered(
            name,
            parts,
            length,
            interner@,
            after,
            reported@,
            after.len() as int,
        ));
    }
    (program, State { interner, errors, written, reported })
}

/// How many offsets the first `j` arguments of an action take up; all of
/// them where it has fewer.
pub fn width_of(action: &Action, j: usize) -> (r: usize)
    requires
        width(action@.arguments, action@.arguments.len() as int) < usize::MAX,
    ensures
        r == width(
            action@.arguments,
            if j < action@.arguments.len() {
                j as int
            } else {
                action@.arguments.len() as int
            },
        ),
{
    let count = if j < action.arguments.len() {
        j
    } else {
        action.arguments.len()
    };
    let mut total: usize = 0;
    let mut k: usize = 0;
    while k < count
        invariant
            k <= count <= action.arguments@.len(),
            action@.arguments.len() == action.arguments@.len(),
            width(action@.arguments, action@.arguments.len() as int) < usize::MAX,
            total == width(action@.arguments, k as int),
        decreases count - k,
    {
        proof {
            lemma_width_rises(action@.arguments, k + 1, action@.arguments.len() as int);
            assert(action@.arguments[k as int] == action.arguments@[k as int]@);
        }
        total = total + action.arguments[k].len() + 1;
        k = k + 1;
    }
    total
}

/// The text of the argument with index `j`; empty where the action has
/// fewer arguments.
pub fn text_at(action: &Action, j: usize) -> (r: &[u8])
    ensures
        r@ == text_of(action@, j as int),
{
    if j < action.arguments.len() {
        action.arguments[j].as_slice()
    } else {
        proof {
            reveal_strlit("");
        }
        let none = "".as_bytes();
        assert(none@ =~= Seq::<u8>::empty()) by {
            vstd::string::is_ascii_spec_bytes("");
        }
        none
    }
}

/// An action begins where the one before it ends.
pub proof fn lemma_base_next(list: Seq<Act>, i: int)
    requires
        0 <= i < list.len(),
        fits(list),
    ensures
        base(list, i + 1) == base(list, i) + width(
            list[i].arguments,
            list[i].arguments.len() as int,
        ),
        base(list, i + 1) < usize::MAX,
{
    lemma_base_rises(list, i + 1, list.len() as int);
}

/// The offsets of the actions rise, and all lie within their end.
pub proof fn lemma_places(list: Seq<Act>, i: int, j: int)
    requires
        0 <= i < list.len(),
        0 <= j,
        fits(list),
    ensures
        base(list, i) <= place(list, i, j) <= base(list, i + 1) < usize::MAX,
        place(list, i, j) + text_of(list[i], j).len() <= base(list, i + 1),
{
    lemma_base_rises(list, i + 1, list.len() as int);
    let a = list[i];
    if j < a.arguments.len() {
        lemma_width_rises(a.arguments, j + 1, a.arguments.len() as int);
    }
}

/// The action parser of the actions of one event.
pub struct ActionParser<'a, 'f> {
    actions: &'a [Action],
    state: State<'f>,
}

impl<'a, 'f> ActionParser<'a, 'f> {
    /// The actions.
    pub closed spec fn list(&self) -> Seq<Act> {
        acts(self.actions@)
    }

    /// The names and the log.
    pub closed spec fn gen(&self) -> Gen {
        self.state.gen()
    }

    /// The error printer.
    pub closed spec fn printer(&self) -> ErrorPrinter<'f> {
        self.state.errors
    }

    /// The offsets of the actions fit a machine word, the interner and the
    /// lines of the error printer are well formed, and the interner holds
    /// the names of the function.
    pub closed spec fn wf(&self) -> bool {
        &&& fits(acts(self.actions@))
        &&& self.state.wf()
        &&& self.state.written@ == self.state.errors.write@
        &&& self.state.reported@ == self.state.errors.reports@.len()
    }

    /// A parser of the actions of an event.
    pub fn new(actions: &'a [Action], interner: Interner, errors: ErrorPrinter<'f>) -> (r:
        ActionParser<'a, 'f>)
        requires
            fits(acts(actions@)),
            interner.wf(),
            errors.lines.wf(),
            errors.name.known(interner@),
        ensures
            r.wf(),
            r.list() == acts(actions@),
            r.gen() == (Gen {
                names: interner@,
                log: Log { reports: errors.reports@, count: errors.count },
            }),
            r.printer() == errors,
    {
        proof {
            assert(errors.write@ =~= errors.write@ + Seq::<u8>::empty());
        }
        ActionParser {
            actions,
            state: State {
                interner,
                errors,
                written: Ghost(errors.write@),
                reported: Ghost(errors.reports@.len() as int),
            },
        }
    }

    /// The tree of the event, a block of its actions; the interner and the
    /// error printer come back with it.
    pub fn parse_event(self) -> (r: ((Stmt, Span), Interner, ErrorPrinter<'f>))
        requires
            self.wf(),
        ensures
            stmt_tree(r.0.0, r.0.1) == event(self.list(), self.gen()).0,
            well_spanned(stmt_tree(r.0.0, r.0.1)),
            r.1@ == event(self.list(), self.gen()).1.names,
            r.1.wf(),
            r.2.lines.wf(),
            r.2.name == self.printer().name,
            r.2.lines == self.printer().lines,
            (Log { reports: r.2.reports@, count: r.2.count }) == event(
                self.list(),
                self.gen(),
            ).1.log,
            extends(r.1@, self.gen().names),
            self.printer().reports@.len() <= r.2.reports@.len(),
            r.2.write@ == self.printer().write@ + rendered(
                r.2.name,
                r.2.lines.parts(),
                r.2.lines.length(),
                r.1@,
                r.2.reports@,
                self.printer().reports@.len() as int,
                r.2.reports@.len() as int,
            ),
    {
        let actions = self.actions;
        let ghost list = acts(actions@);
        let ghost total = sequence(list, 0, self.state.gen());
        proof {
            lemma_event(list, self.state.gen());
        }
        let mut state = self.state;
        let mut stmts: Vec<(Stmt, Span)> = Vec::new();
        let mut i: usize = 0;
        let mut offset: usize = 0;
        assert(stmt_trees(stmts@) =~= Seq::<Tree>::empty());
        while i < actions.len()
            invariant
                i <= actions@.len(),
                list == acts(actions@),
                fits(list),
                state.wf(),
                state.same_printer(&self.state),
                offset == base(list, i as int),
                total.trees =~= stmt_trees(stmts@) + sequence(list, i as int, state.gen()).trees,
                total.gen == sequence(list, i as int, state.gen()).gen,
            decreases actions@.len() - i,
        {
            let (stmt, used, end, after) = parse_action(actions, i, offset, state);
            proof {
                lemma_stmt_trees_push(stmts@, stmt);
            }
            stmts.push(stmt);
            state = after;
            i = i + used;
            offset = end;
        }
        proof {
            lemma_base_rises(list, 0, list.len() as int);
        }
        let span = Span { low: 0, high: offset };
        let block = Stmt::Block(stmts);
        proof {
            lemma_stmt_tree(block, span);
        }
        ((block, span), state.interner, state.errors)
    }
}

/// The call of the function of an action: its name and its arguments.
pub fn parse_call<'f>(actions: &[Action], i: usize, offset: usize, state: State<'f>) -> (r: (
    (Expr, Span),
    usize,
    State<'f>,
))
    requires
        i < actions@.len(),
        fits(acts(actions@)),
        offset == base(acts(actions@), i as int),
        state.wf(),
    ensures
        expr_tree(r.0.0, r.0.1) == call(acts(actions@), i as int, state.gen()).0,
        r.0.1 == extent(acts(actions@), i as int, 1),
        r.1 == base(acts(actions@), i + 1),
        r.2.gen() == call(acts(actions@), i as int, state.gen()).1,
        r.2.wf(),
        r.2.same_printer(&state),
{
    let ghost list = acts(actions@);
    let action = &actions[i];
    let ghost begin = state;
    let mut state = state;
    let name = state.interner.intern(action.name.as_slice());
    proof {
        lemma_interned(begin.interner@, action.name@);
        lemma_rendered_extends(
            state.errors.name,
            state.errors.lines.parts(),
            state.errors.lines.length(),
            begin.interner@,
            state.interner@,
            state.errors.reports@,
            state.reported@,
            state.errors.reports@.len() as int,
        );
    }
    let ghost named = state.gen();
    let ghost total = arguments_from(list, i as int, 0, named);
    let mut args: Vec<(Expr, Span)> = Vec::new();
    let mut at: usize = offset;
    let mut j: usize = 0;
    let arity = action.arguments.len();
    proof {
        lemma_places(list, i as int, 0);
        assert(list[i as int] == action@);
        assert(expr_trees(args@) =~= Seq::<Tree>::empty());
    }
    while j < arity
        invariant
            i < actions@.len(),
            j <= arity == action.arguments@.len(),
            list == acts(actions@),
            fits(list),
            action == actions@[i as int],
            list[i as int] == action@,
            at == base(list, i as int) + width(action@.arguments, j as int),
            state.wf(),
            state.same_printer(&begin),
            total.0 =~= expr_trees(args@) + arguments_from(list, i as int, j as int, state.gen()).0,
            total.1 == arguments_from(list, i as int, j as int, state.gen()).1,
        decreases arity - j,
    {
        proof {
            lemma_places(list, i as int, j as int);
            lemma_places(list, i as int, j + 1);
            assert(action@.arguments[j as int] == action.arguments@[j as int]@);
        }
        let text = action.arguments[j].as_slice();
        let (e, after) = parse_argument(text, at, state);
        proof {
            lemma_expr_trees_push(args@, e);
        }
        args.push(e);
        state = after;
        at = at + text.len() + 1;
        j = j + 1;
    }
    let span = Span { low: offset, high: at };
    let called = Expr::Call(Call((name, Span { low: offset, high: offset }), args));
    proof {
        lemma_expr_tree(called, span);
    }
    ((called, span), at, state)
}

/// The expression that stands for a target in code.
pub fn target_expression(target: Target, span: Span) -> (r: (Expr, Span))
    ensures
        expr_tree(r.0, r.1) == leaf(Kind::Value(target_value(target)), span),
{
    let value = match target {
        Target::Own => Value::Ident(Keyword::Self_.symbol()),
        Target::Other => Value::Ident(Keyword::Other.symbol()),
        Target::Object(index) => Value::Real(Number::Integer(index as u64)),
    };
    proof {
        lemma_expr_tree(Expr::Value(value), span);
    }
    (Expr::Value(value), span)
}

/// An empty block at an offset, which stands where an action is missing.
pub fn nothing(at: usize) -> (r: (Stmt, Span))
    ensures
        stmt_tree(r.0, r.1) == (Tree {
            kind: Kind::Block,
            span: Span { low: at, high: at },
            children: Seq::empty(),
        }),
{
    let none = Stmt::Block(Vec::new());
    proof {
        lemma_stmt_tree(none, Span { low: at, high: at });
        assert(stmt_trees(Seq::<(Stmt, Span)>::empty()) =~= Seq::<Tree>::empty());
    }
    (none, Span { low: at, high: at })
}

/// The action with index `i` and those that belong to it, or an empty
/// block where there is no such action.
pub fn parse_next<'f>(actions: &[Action], i: usize, offset: usize, state: State<'f>) -> (r: (
    (Stmt, Span),
    usize,
    usize,
    State<'f>,
))
    requires
        i <= actions@.len(),
        fits(acts(actions@)),
        offset == base(acts(actions@), i as int),
        state.wf(),
    ensures
        stmt_tree(r.0.0, r.0.1) == act(acts(actions@), i as int, state.gen()).tree,
        r.1 == act(acts(actions@), i as int, state.gen()).used,
        i + r.1 <= actions@.len(),
        r.2 == base(acts(actions@), i + r.1),
        r.3.gen() == act(acts(actions@), i as int, state.gen()).gen,
        r.3.wf(),
        r.3.same_printer(&state),
    decreases actions@.len() - i, 4int,
{
    if i < actions.len() {
        parse_action(actions, i, offset, state)
    } else {
        (nothing(offset), 0, offset, state)
    }
}

/// The action with index `i` and those that belong to it, in a `with`
/// if it applies to another instance: the statement, how many actions it
/// takes up, and the offset behind them.
pub fn parse_action<'f>(actions: &[Action], i: usize, offset: usize, state: State<'f>) -> (r: (
    (Stmt, Span),
    usize,
    usize,
    State<'f>,
))
    requires
        i < actions@.len(),
        fits(acts(actions@)),
        offset == base(acts(actions@), i as int),
        state.wf(),
    ensures
        stmt_tree(r.0.0, r.0.1) == act(acts(actions@), i as int, state.gen()).tree,
        r.1 == act(acts(actions@), i as int, state.gen()).used,
        1 <= r.1,
        i + r.1 <= actions@.len(),
        r.2 == base(acts(actions@), i + r.1),
        r.3.gen() == act(acts(actions@), i as int, state.gen()).gen,
        r.3.wf(),
        r.3.same_printer(&state),
    decreases actions@.len() - i, 3int,
{
    let ghost list = acts(actions@);
    let action = &actions[i];
    proof {
        assert(list[i as int] == action@);
    }
    let here = Span { low: offset, high: offset };
    let (inner, used, end, state) = parse_plain(actions, i, offset, state);
    let applied = match action.target {
        Target::Own => inner,
        target => {
            let span = Span { low: offset, high: inner.1.high };
            let stmt = Stmt::With(Box::new(target_expression(target, here)), Box::new(inner));
            proof {
                lemma_stmt_tree(stmt, span);
            }
            (stmt, span)
        },
    };
    (applied, used, end, state)
}

/// The action with index `i` and those that belong to it, whatever its
/// target.
pub fn parse_plain<'f>(actions: &[Action], i: usize, offset: usize, state: State<'f>) -> (r: (
    (Stmt, Span),
    usize,
    usize,
    State<'f>,
))
    requires
        i < actions@.len(),
        fits(acts(actions@)),
        offset == base(acts(actions@), i as int),
        state.wf(),
    ensures
        stmt_tree(r.0.0, r.0.1) == plain(acts(actions@), i as int, state.gen()).tree,
        plain(acts(actions@), i as int, state.gen()).tree.span == r.0.1,
        r.1 == plain(acts(actions@), i as int, state.gen()).used,
        1 <= r.1,
        i + r.1 <= actions@.len(),
        r.2 == base(acts(actions@), i + r.1),
        r.3.gen() == plain(acts(actions@), i as int, state.gen()).gen,
        r.3.wf(),
        r.3.same_printer(&state),
    decreases actions@.len() - i, 2int,
{
    let ghost list = acts(actions@);
    proof {
        assert(list[i as int] == actions@[i as int]@);
    }
    match actions[i].kind {
        ActionKind::Begin => parse_begin(actions, i, offset, state),
        ActionKind::Repeat => parse_repeat(actions, i, offset, state),
        ActionKind::Variable => parse_variable(actions, i, offset, state),
        ActionKind::Normal => if actions[i].question {
            parse_question(actions, i, offset, state)
        } else {
            parse_invoke(actions, i, offset, state)
        },
        _ => parse_simple(actions, i, offset, state),
    }
}

/// A block of actions, from `begin` to `end`.
pub fn parse_begin<'f>(actions: &[Action], i: usize, offset: usize, state: State<'f>) -> (r: (
    (Stmt, Span),
    usize,
    usize,
    State<'f>,
))
    requires
        i < actions@.len(),
        fits(acts(actions@)),
        offset == base(acts(actions@), i as int),
        state.wf(),
        actions@[i as int].kind == ActionKind::Begin,
    ensures
        stmt_tree(r.0.0, r.0.1) == plain(acts(actions@), i as int, state.gen()).tree,
        plain(acts(actions@), i as int, state.gen()).tree.span == r.0.1,
        r.1 == plain(acts(actions@), i as int, state.gen()).used,
        1 <= r.1,
        i + r.1 <= actions@.len(),
        r.2 == base(acts(actions@), i + r.1),
        r.3.gen() == plain(acts(actions@), i as int, state.gen()).gen,
        r.3.wf(),
        r.3.same_printer(&state),
    decreases actions@.len() - i, 1int,
{
    let ghost list = acts(actions@);
    let action = &actions[i];
    proof {
        assert(list[i as int] == action@);
        lemma_places(list, i as int, 0);
        lemma_places(list, i as int, 1);
        lemma_base_next(list, i as int);
    }
    let next = offset + width_of(action, action.arguments.len());
    let (stmts, inside, at, after) = parse_block(actions, i + 1, next, state);
    let (used, end) = if i + 1 + inside < actions.len() {
        proof {
            lemma_base_next(list, i + 1 + inside);
            assert(list[i + 1 + inside] == actions@[i + 1 + inside]@);
        }
        let closing = &actions[i + 1 + inside];
        (inside + 2, at + width_of(closing, closing.arguments.len()))
    } else {
        (inside + 1, at)
    };
    let span = Span { low: offset, high: end };
    let block = Stmt::Block(stmts);
    proof {
        lemma_stmt_tree(block, span);
    }
    ((block, span), used, end, after)
}

/// An action without actions of its own: `exit`, code, or an `end` or
/// `else` that belongs to nothing, which counts as an empty block.
pub fn parse_simple<'f>(actions: &[Action], i: usize, offset: usize, state: State<'f>) -> (r: (
    (Stmt, Span),
    usize,
    usize,
    State<'f>,
))
    requires
        i < actions@.len(),
        fits(acts(actions@)),
        offset == base(acts(actions@), i as int),
        state.wf(),
        actions@[i as int].kind == ActionKind::End || actions@[i as int].kind == ActionKind::Else
            || actions@[i as int].kind == ActionKind::Exit || actions@[i as int].kind
            == ActionKind::Code,
    ensures
        stmt_tree(r.0.0, r.0.1) == plain(acts(actions@), i as int, state.gen()).tree,
        plain(acts(actions@), i as int, state.gen()).tree.span == r.0.1,
        r.1 == plain(acts(actions@), i as int, state.gen()).used,
        1 <= r.1,
        i + r.1 <= actions@.len(),
        r.2 == base(acts(actions@), i + r.1),
        r.3.gen() == plain(acts(actions@), i as int, state.gen()).gen,
        r.3.wf(),
        r.3.same_printer(&state),
    decreases actions@.len() - i, 1int,
{
    let ghost list = acts(actions@);
    let action = &actions[i];
    proof {
        assert(list[i as int] == action@);
        lemma_places(list, i as int, 0);
        lemma_places(list, i as int, 1);
        lemma_base_next(list, i as int);
    }
    let next = offset + width_of(action, action.arguments.len());
    match action.kind {
        ActionKind::Exit => {
            let span = Span { low: offset, high: next };
            proof {
                lemma_stmt_tree(Stmt::Jump(Jump::Exit), span);
            }
            ((Stmt::Jump(Jump::Exit), span), 1, next, state)
        },
        ActionKind::Code => {
            let (program, after) = parse_code(text_at(action, 0), offset, state);
            (program, 1, next, after)
        },
        _ => {
            let span = Span { low: offset, high: next };
            let block = Stmt::Block(Vec::new());
            proof {
                lemma_stmt_tree(block, span);
                assert(stmt_trees(Seq::<(Stmt, Span)>::empty()) =~= Seq::<Tree>::empty());
            }
            ((block, span), 1, next, state)
        },
    }
}

/// `repeat`: the count and the next action.
pub fn parse_repeat<'f>(actions: &[Action], i: usize, offset: usize, state: State<'f>) -> (r: (
    (Stmt, Span),
    usize,
    usize,
    State<'f>,
))
    requires
        i < actions@.len(),
        fits(acts(actions@)),
        offset == base(acts(actions@), i as int),
        state.wf(),
        actions@[i as int].kind == ActionKind::Repeat,
    ensures
        stmt_tree(r.0.0, r.0.1) == plain(acts(actions@), i as int, state.gen()).tree,
        plain(acts(actions@), i as int, state.gen()).tree.span == r.0.1,
        r.1 == plain(acts(actions@), i as int, state.gen()).used,
        1 <= r.1,
        i + r.1 <= actions@.len(),
        r.2 == base(acts(actions@), i + r.1),
        r.3.gen() == plain(acts(actions@), i as int, state.gen()).gen,
        r.3.wf(),
        r.3.same_printer(&state),
    decreases actions@.len() - i, 1int,
{
    let ghost list = acts(actions@);
    let action = &actions[i];
    proof {
        assert(list[i as int] == action@);
        lemma_places(list, i as int, 0);
        lemma_places(list, i as int, 1);
        lemma_base_next(list, i as int);
    }
    let next = offset + width_of(action, action.arguments.len());
    let (count, after) = parse_argument(text_at(action, 0), offset, state);
    let (body, used, end, after) = parse_next(actions, i + 1, next, after);
    let span = Span { low: offset, high: end };
    let stmt = Stmt::Repeat(Box::new(count), Box::new(body));
    proof {
        lemma_stmt_tree(stmt, span);
    }
    ((stmt, span), 1 + used, end, after)
}

/// An assignment: the variable and the value.
pub fn parse_variable<'f>(actions: &[Action], i: usize, offset: usize, state: State<'f>) -> (r: (
    (Stmt, Span),
    usize,
    usize,
    State<'f>,
))
    requires
        i < actions@.len(),
        fits(acts(actions@)),
        offset == base(acts(actions@), i as int),
        state.wf(),
        actions@[i as int].kind == ActionKind::Variable,
    ensures
        stmt_tree(r.0.0, r.0.1) == plain(acts(actions@), i as int, state.gen()).tree,
        plain(acts(actions@), i as int, state.gen()).tree.span == r.0.1,
        r.1 == plain(acts(actions@), i as int, state.gen()).used,
        1 <= r.1,
        i + r.1 <= actions@.len(),
        r.2 == base(acts(actions@), i + r.1),
        r.3.gen() == plain(acts(actions@), i as int, state.gen()).gen,
        r.3.wf(),
        r.3.same_printer(&state),
    decreases actions@.len() - i, 1int,
{
    let ghost list = acts(actions@);
    let action = &actions[i];
    proof {
        assert(list[i as int] == action@);
        lemma_places(list, i as int, 0);
        lemma_places(list, i as int, 1);
        lemma_base_next(list, i as int);
    }
    let next = offset + width_of(action, action.arguments.len());
    let here = Span { low: offset, high: offset };
    let (variable, after) = parse_argument(text_at(action, 0), offset, state);
    let second = offset + width_of(action, 1);
    let (value, after) = parse_argument(text_at(action, 1), second, after);
    let span = Span { low: offset, high: next };
    let op = if action.relative {
        Some(Op::Add)
    } else {
        None
    };
    let stmt = Stmt::Assign((op, here), Box::new(variable), Box::new(value));
    proof {
        lemma_stmt_tree(stmt, span);
    }
    ((stmt, span), 1, next, after)
}

/// A call of a function that stands as a statement.
pub fn parse_invoke<'f>(actions: &[Action], i: usize, offset: usize, state: State<'f>) -> (r: (
    (Stmt, Span),
    usize,
    usize,
    State<'f>,
))
    requires
        i < actions@.len(),
        fits(acts(actions@)),
        offset == base(acts(actions@), i as int),
        state.wf(),
        actions@[i as int].kind == ActionKind::Normal,
        !actions@[i as int].question,
    ensures
        stmt_tree(r.0.0, r.0.1) == plain(acts(actions@), i as int, state.gen()).tree,
        plain(acts(actions@), i as int, state.gen()).tree.span == r.0.1,
        r.1 == plain(acts(actions@), i as int, state.gen()).used,
        1 <= r.1,
        i + r.1 <= actions@.len(),
        r.2 == base(acts(actions@), i + r.1),
        r.3.gen() == plain(acts(actions@), i as int, state.gen()).gen,
        r.3.wf(),
        r.3.same_printer(&state),
    decreases actions@.len() - i, 1int,
{
    let ghost list = acts(actions@);
    let action = &actions[i];
    proof {
        assert(list[i as int] == action@);
        lemma_places(list, i as int, 0);
        lemma_places(list, i as int, 1);
        lemma_base_next(list, i as int);
    }
    let next = offset + width_of(action, action.arguments.len());
    let (called, _, after) = parse_call(actions, i, offset, state);
    let span = Span { low: offset, high: next };
    proof {
        lemma_expr_tree(called.0, called.1);
    }
    let stmt = match called.0 {
        Expr::Call(call) => Stmt::Invoke(call),
        other => Stmt::Error(other),
    };
    proof {
        lemma_stmt_tree(stmt, span);
    }
    ((stmt, span), 1, next, after)
}

/// A question: the call, the next action and, behind an `else`, the
/// action that is run when the question is denied.
pub fn parse_question<'f>(actions: &[Action], i: usize, offset: usize, state: State<'f>) -> (r: (
    (Stmt, Span),
    usize,
    usize,
    State<'f>,
))
    requires
        i < actions@.len(),
        fits(acts(actions@)),
        offset == base(acts(actions@), i as int),
        state.wf(),
        actions@[i as int].kind == ActionKind::Normal,
        actions@[i as int].question,
    ensures
        stmt_tree(r.0.0, r.0.1) == plain(acts(actions@), i as int, state.gen()).tree,
        plain(acts(actions@), i as int, state.gen()).tree.span == r.0.1,
        r.1 == plain(acts(actions@), i as int, state.gen()).used,
        1 <= r.1,
        i + r.1 <= actions@.len(),
        r.2 == base(acts(actions@), i + r.1),
        r.3.gen() == plain(acts(actions@), i as int, state.gen()).gen,
        r.3.wf(),
        r.3.same_printer(&state),
    decreases actions@.len() - i, 1int,
{
    let ghost list = acts(actions@);
    let action = &actions[i];
    proof {
        assert(list[i as int] == action@);
        lemma_places(list, i as int, 0);
        lemma_places(list, i as int, 1);
        lemma_base_next(list, i as int);
    }
    let next = offset + width_of(action, action.arguments.len());
    let here = Span { low: offset, high: offset };
    let (called, _, after) = parse_call(actions, i, offset, state);
    let cond = if action.negate {
        let span = Span { low: offset, high: next };
        let negated = Expr::Unary((Unary::Invert, here), Box::new(called));
        proof {
            lemma_expr_tree(negated, span);
        }
        (negated, span)
    } else {
        called
    };
    let (yes, first, at, after) = parse_next(actions, i + 1, next, after);
    let other = i + 1 + first;
    if other < actions.len() && matches!(actions[other].kind, ActionKind::Else) {
        proof {
            lemma_base_next(list, other as int);
            assert(list[other as int] == actions@[other as int]@);
        }
        let behind = at + width_of(&actions[other], actions[other].arguments.len());
        let (no, second, end, after) = parse_next(actions, other + 1, behind, after);
        let span = Span { low: offset, high: end };
        let stmt = Stmt::If(Box::new(cond), Box::new(yes), Some(Box::new(no)));
        proof {
            lemma_stmt_tree(stmt, span);
        }
        ((stmt, span), 2 + first + second, end, after)
    } else {
        proof {
            if other < actions@.len() {
                assert(list[other as int] == actions@[other as int]@);
            }
        }
        let span = Span { low: offset, high: at };
        let stmt = Stmt::If(Box::new(cond), Box::new(yes), None);
        proof {
            lemma_stmt_tree(stmt, span);
        }
        ((stmt, span), 1 + first, at, after)
    }
}

/// The actions of a block, from the one with index `i` up to the `end`
/// that closes the block or to the last action: the statements, how many
/// actions they take up, and the offset behind them.
pub fn parse_block<'f>(actions: &[Action], i: usize, offset: usize, state: State<'f>) -> (r: (
    Vec<(Stmt, Span)>,
    usize,
    usize,
    State<'f>,
))
    requires
        i <= actions@.len(),
        fits(acts(actions@)),
        offset == base(acts(actions@), i as int),
        state.wf(),
    ensures
        stmt_trees(r.0@) == block(acts(actions@), i as int, state.gen()).trees,
        r.1 == block(acts(actions@), i as int, state.gen()).used,
        i + r.1 <= actions@.len(),
        i + r.1 < actions@.len() ==> actions@[i + r.1].kind == ActionKind::End,
        r.2 == base(acts(actions@), i + r.1),
        r.3.gen() == block(acts(actions@), i as int, state.gen()).gen,
        r.3.wf(),
        r.3.same_printer(&state),
    decreases actions@.len() - i, 5int,
{
    let ghost list = acts(actions@);
    let ghost total = block(list, i as int, state.gen());
    let ghost begin = state;
    let mut state = state;
    let mut stmts: Vec<(Stmt, Span)> = Vec::new();
    let mut k: usize = i;
    let mut at: usize = offset;
    assert(stmt_trees(stmts@) =~= Seq::<Tree>::empty());
    while k < actions.len() && !matches!(actions[k].kind, ActionKind::End)
        invariant
            i <= k <= actions@.len(),
            list == acts(actions@),
            fits(list),
            state.wf(),
            state.same_printer(&begin),
            at == base(list, k as int),
            total.trees =~= stmt_trees(stmts@) + block(list, k as int, state.gen()).trees,
            total.used == (k - i) + block(list, k as int, state.gen()).used,
            total.gen == block(list, k as int, state.gen()).gen,
        decreases actions@.len() - k,
    {
        proof {
            assert(list[k as int] == actions@[k as int]@);
        }
        let (stmt, used, end, after) = parse_action(actions, k, at, state);
        proof {
            lemma_stmt_trees_push(stmts@, stmt);
        }
        stmts.push(stmt);
        state = after;
        k = k + used;
        at = end;
    }
    proof {
        if k < actions@.len() {
            assert(list[k as int] == actions@[k as int]@);
        }
    }
    (stmts, k - i, at, state)
}

/// A tree lies within the offsets `low` to `high` and each of its nodes
/// covers its children.
pub open spec fn held(tree: Tree, low: int, high: int) -> bool {
    low <= tree.span.low <= tree.span.high <= high && well_spanned(tree)
}

/// The tree of a list of tokens of a text lies within the text.
pub proof fn lemma_within_text(
    text: Seq<u8>,
    offset: int,
    names: Seq<Seq<u8>>,
    tree: Tree,
    used: nat,
)
    requires
        0 <= offset,
        offset + text.len() <= usize::MAX,
        crate::symbol::distinct(names),
        sound(stream(text, offset, 0, names), 0, tree, used),
    ensures
        held(tree, offset, offset + text.len()),
{
    let ts = stream(text, offset, 0, names);
    lemma_stream_ordered(text, offset, 0, names);
    reveal(at);
    if used < ts.len() - 1 {
        assert(ts[used as int].span.high <= ts[ts.len() - 1].span.low);
    }
}

/// The tree of an argument lies within the text of the argument, and the
/// table of names still holds no name twice.
pub proof fn lemma_argument(text: Seq<u8>, offset: int, g: Gen)
    requires
        0 <= offset,
        offset + text.len() <= usize::MAX,
        crate::symbol::distinct(g.names),
    ensures
        held(argument(text, offset, g).0, offset, offset + text.len()),
        crate::symbol::distinct(argument(text, offset, g).1.names),
{
    reveal(argument);
    let ts = stream(text, offset, 0, g.names);
    lemma_stream_ordered(text, offset, 0, g.names);
    lemma_rising(ts);
    lemma_expression(ts, 0, 0, g.log);
    let e = expression(ts, 0, 0, g.log);
    lemma_within_text(text, offset, g.names, e.tree, e.used);
    lemma_state_after(text, offset, 0, g.names, e.used + 1);
}

/// The tree of code lies within the text of the code, and the table of
/// names still holds no name twice.
pub proof fn lemma_embedded(text: Seq<u8>, offset: int, g: Gen)
    requires
        0 <= offset,
        offset + text.len() <= usize::MAX,
        crate::symbol::distinct(g.names),
    ensures
        held(embedded(text, offset, g).0, offset, offset + text.len()),
        crate::symbol::distinct(embedded(text, offset, g).1.names),
{
    reveal(embedded);
    let ts = stream(text, offset, 0, g.names);
    lemma_stream_ordered(text, offset, 0, g.names);
    lemma_rising(ts);
    lemma_program(ts, 0, g.log);
    let p = program(ts, 0, g.log);
    lemma_within_text(text, offset, g.names, p.tree, p.used);
    lemma_state_after(text, offset, 0, g.names, p.used + 1);
}

/// The trees of the arguments of an action lie within the offsets of the
/// action.
pub proof fn lemma_arguments_from(list: Seq<Act>, i: int, j: int, g: Gen)
    requires
        0 <= i < list.len(),
        0 <= j,
        fits(list),
        crate::symbol::distinct(g.names),
    ensures
        sound_trees(
            arguments_from(list, i, j, g).0,
            base(list, i) as usize,
            base(list, i + 1) as usize,
        ),
        crate::symbol::distinct(arguments_from(list, i, j, g).1.names),
    decreases list[i].arguments.len() - j,
{
    lemma_places(list, i, j);
    if j < list[i].arguments.len() {
        lemma_argument(list[i].arguments[j], place(list, i, j), g);
        let first = argument(list[i].arguments[j], place(list, i, j), g);
        lemma_arguments_from(list, i, j + 1, first.1);
        let rest = arguments_from(list, i, j + 1, first.1);
        let span = Span { low: base(list, i) as usize, high: base(list, i + 1) as usize };
        lemma_node(Kind::Call, span, seq![first.0], rest.0);
    }
}

/// What an action becomes lies within the offsets of the actions that it
/// takes up, each node covers its children, and the table of names still
/// holds no name twice.
pub open spec fn fitting(list: Seq<Act>, i: int, s: Stepped) -> bool {
    &&& held(s.tree, base(list, i) as int, base(list, i + s.used) as int)
    &&& i + s.used <= list.len()
    &&& s.used >= 1
    &&& crate::symbol::distinct(s.gen.names)
}

/// What an action becomes lies within the offsets of the actions that it
/// takes up, and each node covers its children.
pub proof fn lemma_act(list: Seq<Act>, i: int, g: Gen)
    requires
        0 <= i < list.len(),
        fits(list),
        crate::symbol::distinct(g.names),
    ensures
        fitting(list, i, act(list, i, g)),
    decreases left(list, i), 3int,
{
    lemma_plain(list, i, g);
    let inner = plain(list, i, g);
    lemma_base_rises(list, i + inner.used, list.len() as int);
    if list[i].target != Target::Own {
        let span = Span { low: base(list, i) as usize, high: inner.tree.span.high };
        let target = leaf(Kind::Value(target_value(list[i].target)), origin(list, i));
        lemma_node(Kind::With, span, seq![target], seq![inner.tree]);
        assert(applied(list, i, inner.tree).children =~= seq![target] + seq![inner.tree]);
    }
}

/// What an action becomes, whatever its target, lies within the offsets of
/// the actions that it takes up, and each node covers its children.
pub proof fn lemma_plain(list: Seq<Act>, i: int, g: Gen)
    requires
        0 <= i < list.len(),
        fits(list),
        crate::symbol::distinct(g.names),
    ensures
        fitting(list, i, plain(list, i, g)),
    decreases left(list, i), 2int,
{
    lemma_base_next(list, i);
    lemma_places(list, i, 0);
    match list[i].kind {
        ActionKind::Begin => {
            lemma_begin(list, i, g);
        },
        ActionKind::Repeat => {
            lemma_repeat(list, i, g);
        },
        ActionKind::Variable => {
            lemma_variable(list, i, g);
        },
        ActionKind::Code => {
            lemma_embedded(text_of(list[i], 0), place(list, i, 0), g);
        },
        ActionKind::Normal => {
            if list[i].question {
                lemma_question(list, i, g);
            } else {
                lemma_call(list, i, g);
                lemma_children(call(list, i, g).0);
                lemma_node(
                    Kind::Invoke,
                    extent(list, i, 1),
                    call(list, i, g).0.children,
                    Seq::empty(),
                );
                assert(call(list, i, g).0.children + Seq::<Tree>::empty() =~= call(
                    list,
                    i,
                    g,
                ).0.children);
            }
        },
        ActionKind::Exit => {},
        _ => {
            lemma_node(Kind::Block, extent(list, i, 1), Seq::empty(), Seq::empty());
            assert(Seq::<Tree>::empty() + Seq::<Tree>::empty() =~= Seq::<Tree>::empty());
        },
    }
}

/// A block of actions lies within the offsets of the actions that it takes
/// up.
pub proof fn lemma_begin(list: Seq<Act>, i: int, g: Gen)
    requires
        0 <= i < list.len(),
        fits(list),
        crate::symbol::distinct(g.names),
        list[i].kind == ActionKind::Begin,
    ensures
        fitting(list, i, plain(list, i, g)),
    decreases left(list, i), 1int,
{
    lemma_base_next(list, i);
    lemma_block(list, i + 1, g);
    let inside = block(list, i + 1, g);
    let used: nat = if i + 1 + inside.used < list.len() {
        inside.used + 2
    } else {
        inside.used + 1
    };
    lemma_base_rises(list, i + 1, i + 1 + inside.used);
    lemma_base_rises(list, i + 1 + inside.used, i + used);
    lemma_base_rises(list, i + used, list.len() as int);
    let span = extent(list, i, used);
    lemma_widen(
        inside.trees,
        base(list, i + 1) as usize,
        base(list, i + 1 + inside.used) as usize,
        span.low,
        span.high,
    );
    lemma_node(Kind::Block, span, inside.trees, Seq::empty());
    assert(inside.trees + Seq::<Tree>::empty() =~= inside.trees);
}

/// A repetition lies within the offsets of the actions that it takes up.
pub proof fn lemma_repeat(list: Seq<Act>, i: int, g: Gen)
    requires
        0 <= i < list.len(),
        fits(list),
        crate::symbol::distinct(g.names),
        list[i].kind == ActionKind::Repeat,
    ensures
        fitting(list, i, plain(list, i, g)),
    decreases left(list, i), 1int,
{
    let a = list[i];
    lemma_base_next(list, i);
    lemma_places(list, i, 0);
    lemma_argument(text_of(a, 0), place(list, i, 0), g);
    let count = argument(text_of(a, 0), place(list, i, 0), g);
    if i + 1 < list.len() {
        lemma_act(list, i + 1, count.1);
    }
    let body = act(list, i + 1, count.1);
    lemma_base_rises(list, i + 1, i + 1 + body.used);
    lemma_base_rises(list, i + 1 + body.used, list.len() as int);
    let span = extent(list, i, 1 + body.used);
    lemma_node(Kind::Repeat, span, seq![count.0], seq![body.tree]);
    assert(plain(list, i, g).tree.children =~= seq![count.0] + seq![body.tree]);
}

/// An assignment to a variable lies within the offsets of its action.
pub proof fn lemma_variable(list: Seq<Act>, i: int, g: Gen)
    requires
        0 <= i < list.len(),
        fits(list),
        crate::symbol::distinct(g.names),
        list[i].kind == ActionKind::Variable,
    ensures
        fitting(list, i, plain(list, i, g)),
{
    let a = list[i];
    lemma_base_next(list, i);
    lemma_places(list, i, 0);
    lemma_places(list, i, 1);
    lemma_argument(text_of(a, 0), place(list, i, 0), g);
    let variable = argument(text_of(a, 0), place(list, i, 0), g);
    lemma_argument(text_of(a, 1), place(list, i, 1), variable.1);
    let value = argument(text_of(a, 1), place(list, i, 1), variable.1);
    let span = extent(list, i, 1);
    lemma_node(
        plain(list, i, g).tree.kind,
        span,
        seq![variable.0, leaf(Kind::Operator, origin(list, i))],
        seq![value.0],
    );
    assert(plain(list, i, g).tree.children =~= seq![
        variable.0,
        leaf(Kind::Operator, origin(list, i)),
    ] + seq![value.0]);
}

/// A node of two or three children is well spanned if the children are
/// and lie within its span.
pub proof fn lemma_branches(kind: Kind, span: Span, first: Tree, second: Tree, third: Seq<Tree>)
    requires
        span.low <= span.high,
        held(first, span.low as int, span.high as int),
        held(second, span.low as int, span.high as int),
        sound_trees(third, span.low, span.high),
    ensures
        well_spanned(Tree { kind, span, children: seq![first, second] + third }),
{
    lemma_node(kind, span, seq![first, second], third);
}

/// The condition of a question lies within the offsets of its action.
pub proof fn lemma_condition(list: Seq<Act>, i: int, g: Gen)
    requires
        0 <= i < list.len(),
        fits(list),
        crate::symbol::distinct(g.names),
    ensures
        held(condition(list, i, g), base(list, i) as int, base(list, i + 1) as int),
        crate::symbol::distinct(call(list, i, g).1.names),
        base(list, i + 1) < usize::MAX,
{
    lemma_base_next(list, i);
    lemma_call(list, i, g);
    let called = call(list, i, g);
    if list[i].negate {
        let mark = leaf(Kind::Operator, origin(list, i));
        lemma_node(Kind::Unary(Unary::Invert), extent(list, i, 1), seq![mark], seq![called.0]);
        assert(condition(list, i, g).children =~= seq![mark] + seq![called.0]);
    }
}

/// A question with what depends on it lies within the offsets of the
/// actions that it takes up.
#[verifier::rlimit(100)]
#[verifier::spinoff_prover]
pub proof fn lemma_question(list: Seq<Act>, i: int, g: Gen)
    requires
        0 <= i < list.len(),
        fits(list),
        crate::symbol::distinct(g.names),
        list[i].kind == ActionKind::Normal,
        list[i].question,
    ensures
        fitting(list, i, plain(list, i, g)),
    decreases left(list, i), 1int,
{
    lemma_condition(list, i, g);
    let cond = condition(list, i, g);
    let after = call(list, i, g).1;
    if i + 1 < list.len() {
        lemma_act(list, i + 1, after);
    }
    let yes = act(list, i + 1, after);
    let next = i + 1 + yes.used;
    lemma_base_rises(list, i + 1, next);
    lemma_base_rises(list, next, list.len() as int);
    if next < list.len() && list[next].kind == ActionKind::Else {
        if next + 1 < list.len() {
            lemma_act(list, next + 1, yes.gen);
        }
        let no = act(list, next + 1, yes.gen);
        lemma_base_rises(list, next, next + 1);
        lemma_base_rises(list, next + 1, next + 1 + no.used);
        lemma_base_rises(list, next + 1 + no.used, list.len() as int);
        let span = extent(list, i, 2 + yes.used + no.used);
        lemma_branches(Kind::If, span, cond, yes.tree, seq![no.tree]);
        assert(seq![cond, yes.tree, no.tree] =~= seq![cond, yes.tree] + seq![no.tree]);
    } else {
        let span = extent(list, i, 1 + yes.used);
        lemma_branches(Kind::If, span, cond, yes.tree, Seq::empty());
        assert(seq![cond, yes.tree] =~= seq![cond, yes.tree] + Seq::<Tree>::empty());
    }
}

/// The call of the function of an action lies within the offsets of the
/// action.
pub proof fn lemma_call(list: Seq<Act>, i: int, g: Gen)
    requires
        0 <= i < list.len(),
        fits(list),
        crate::symbol::distinct(g.names),
    ensures
        held(call(list, i, g).0, base(list, i) as int, base(list, i + 1) as int),
        call(list, i, g).0.span == extent(list, i, 1),
        crate::symbol::distinct(call(list, i, g).1.names),
{
    reveal_with_fuel(well_spanned, 2);
    lemma_base_next(list, i);
    lemma_interned(g.names, list[i].name);
    let name = interned(g.names, list[i].name);
    lemma_arguments_from(list, i, 0, Gen { names: name.0, log: g.log });
    let args = arguments_from(list, i, 0, Gen { names: name.0, log: g.log });
    let span = extent(list, i, 1);
    lemma_node(
        Kind::Call,
        span,
        seq![leaf(Kind::Name(Symbol { index: name.1 as usize }), origin(list, i))],
        args.0,
    );
}

/// The statements of a block of actions lie within the offsets of the
/// actions that they take up.
pub proof fn lemma_block(list: Seq<Act>, i: int, g: Gen)
    requires
        0 <= i <= list.len(),
        fits(list),
        crate::symbol::distinct(g.names),
    ensures
        sound_trees(
            block(list, i, g).trees,
            base(list, i) as usize,
            base(list, i + block(list, i, g).used) as usize,
        ),
        i + block(list, i, g).used <= list.len(),
        crate::symbol::distinct(block(list, i, g).gen.names),
    decreases left(list, i), 4int,
{
    lemma_base_rises(list, i, list.len() as int);
    if i < list.len() && list[i].kind != ActionKind::End {
        lemma_act(list, i, g);
        let first = act(list, i, g);
        lemma_block(list, i + first.used, first.gen);
        let rest = block(list, i + first.used, first.gen);
        let end = i + first.used + rest.used;
        lemma_base_rises(list, i, i + first.used);
        lemma_base_rises(list, i + first.used, end);
        lemma_base_rises(list, end, list.len() as int);
        let span = Span { low: base(list, i) as usize, high: base(list, end) as usize };
        lemma_widen(
            rest.trees,
            base(list, i + first.used) as usize,
            base(list, end) as usize,
            span.low,
            span.high,
        );
        lemma_node(Kind::Block, span, seq![first.tree], rest.trees);
    }
}

/// The statements of the actions of an event lie within the offsets of
/// the actions that they take up.
pub proof fn lemma_sequence(list: Seq<Act>, i: int, g: Gen)
    requires
        0 <= i <= list.len(),
        fits(list),
        crate::symbol::distinct(g.names),
    ensures
        sound_trees(
            sequence(list, i, g).trees,
            base(list, i) as usize,
            base(list, list.len() as int) as usize,
        ),
    decreases left(list, i), 4int,
{
    lemma_base_rises(list, i, list.len() as int);
    if i < list.len() {
        lemma_act(list, i, g);
        let first = act(list, i, g);
        lemma_sequence(list, i + first.used, first.gen);
        let rest = sequence(list, i + first.used, first.gen);
        lemma_base_rises(list, i, i + first.used);
        lemma_base_rises(list, i + first.used, list.len() as int);
        let span = Span {
            low: base(list, i) as usize,
            high: base(list, list.len() as int) as usize,
        };
        lemma_widen(
            rest.trees,
            base(list, i + first.used) as usize,
            span.high,
            span.low,
            span.high,
        );
        lemma_node(Kind::Block, span, seq![first.tree], rest.trees);
    }
}

/// The span of every node of the tree of an event covers the spans of the
/// node's children.
pub proof fn lemma_event(list: Seq<Act>, g: Gen)
    requires
        fits(list),
        crate::symbol::distinct(g.names),
    ensures
        well_spanned(event(list, g).0),
{
    lemma_sequence(list, 0, g);
    lemma_base_rises(list, 0, list.len() as int);
    let all = sequence(list, 0, g);
    lemma_node(Kind::Block, extent(list, 0, list.len()), all.trees, Seq::empty());
    assert(all.trees + Seq::<Tree>::empty() =~= all.trees);
}

} // verus!
