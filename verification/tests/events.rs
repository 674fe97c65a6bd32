use gml::front::actions::ActionParser;
use gml::front::ast::{Binary, Call, Expr, Jump, Number, Op, Stmt, Unary, Value};
use gml::front::lines::{Lines, Position};
use gml::front::Span;
use gml::project::{Action, ActionKind, Event, Game, Object, Script, Target};
use gml::symbol::{Interner, Keyword, Symbol};
use gml::{build, compile_event, ErrorPrinter, EventDisplay, Function, FunctionDisplay};

fn span(low: usize, high: usize) -> Span {
    Span { low, high }
}

fn action(kind: ActionKind, name: &[u8], arguments: &[&[u8]]) -> Action {
    Action {
        kind,
        question: false,
        negate: false,
        relative: false,
        target: Target::Own,
        name: name.to_vec(),
        arguments: arguments.iter().map(|text| text.to_vec()).collect(),
    }
}

fn plain(kind: ActionKind) -> Action {
    action(kind, b"", &[])
}

struct Outcome {
    program: (Stmt, Span),
    count: u32,
    output: String,
    interner: Interner,
}

fn parse(actions: &[Action]) -> Outcome {
    let lines = Lines::from_actions(actions);
    let mut interner = Interner::new();
    let object = interner.intern(b"ball");
    let name = FunctionDisplay::Event { object, event_type: 3, event_kind: EventDisplay::Id(0) };
    let errors = ErrorPrinter::new(name, &lines, Vec::new());
    let (program, interner, errors) = ActionParser::new(actions, interner, errors).parse_event();
    Outcome {
        program,
        count: errors.count,
        output: String::from_utf8(errors.write).unwrap(),
        interner,
    }
}

fn name(outcome: &Outcome, text: &[u8]) -> Symbol {
    outcome.interner.get(text).unwrap()
}

fn ident(outcome: &Outcome, text: &[u8], low: usize, high: usize) -> (Expr, Span) {
    (Expr::Value(Value::Ident(name(outcome, text))), span(low, high))
}

fn number(outcome: &Outcome, text: &[u8], low: usize, high: usize) -> (Expr, Span) {
    (Expr::Value(Value::Real(Number::Decimal(name(outcome, text)))), span(low, high))
}

#[test]
fn a_question_decides_between_a_block_and_what_stands_behind_else() {
    let mut question = action(ActionKind::Normal, b"place_free", &[b"x + 1", b"y"]);
    question.question = true;
    let mut variable = action(ActionKind::Variable, b"", &[b"hspeed", b"2"]);
    variable.relative = true;
    let actions = vec![
        question,
        plain(ActionKind::Begin),
        variable,
        plain(ActionKind::End),
        plain(ActionKind::Else),
        action(ActionKind::Code, b"", &[b"{ vspeed = 0 }"]),
    ];
    let o = parse(&actions);
    assert_eq!(o.count, 0);
    let sum = Expr::Binary(
        (Binary::Op(Op::Add), span(2, 3)),
        Box::new(ident(&o, b"x", 0, 1)),
        Box::new(number(&o, b"1", 4, 5)),
    );
    let cond = Expr::Call(Call(
        (name(&o, b"place_free"), span(0, 0)),
        vec![(sum, span(0, 5)), ident(&o, b"y", 6, 7)],
    ));
    let add = Stmt::Assign(
        (Some(Op::Add), span(8, 8)),
        Box::new(ident(&o, b"hspeed", 8, 14)),
        Box::new(number(&o, b"2", 15, 16)),
    );
    let code = Stmt::Block(vec![(
        Stmt::Assign(
            (None, span(26, 27)),
            Box::new(ident(&o, b"vspeed", 19, 25)),
            Box::new(number(&o, b"0", 28, 29)),
        ),
        span(19, 29),
    )]);
    assert_eq!(o.program, (
        Stmt::Block(vec![(
            Stmt::If(
                Box::new((cond, span(0, 8))),
                Box::new((Stmt::Block(vec![(add, span(8, 17))]), span(8, 17))),
                Some(Box::new((code, span(17, 31)))),
            ),
            span(0, 32),
        )]),
        span(0, 32),
    ));
}

#[test]
fn a_negated_question_without_else() {
    let mut question = action(ActionKind::Normal, b"test", &[]);
    question.question = true;
    question.negate = true;
    let o = parse(&[question, plain(ActionKind::Exit), plain(ActionKind::Exit)]);
    assert_eq!(o.count, 0);
    let call = Expr::Call(Call((name(&o, b"test"), span(0, 0)), vec![]));
    assert_eq!(o.program, (
        Stmt::Block(vec![
            (
                Stmt::If(
                    Box::new((
                        Expr::Unary((Unary::Invert, span(0, 0)), Box::new((call, span(0, 0)))),
                        span(0, 0),
                    )),
                    Box::new((Stmt::Jump(Jump::Exit), span(0, 0))),
                    None,
                ),
                span(0, 0),
            ),
            (Stmt::Jump(Jump::Exit), span(0, 0)),
        ]),
        span(0, 0),
    ));
}

#[test]
fn repeat_takes_the_next_action() {
    let o = parse(&[
        action(ActionKind::Repeat, b"", &[b"3"]),
        action(ActionKind::Normal, b"step", &[b"1"]),
    ]);
    assert_eq!(o.count, 0);
    let call = Call((name(&o, b"step"), span(2, 2)), vec![number(&o, b"1", 2, 3)]);
    assert_eq!(o.program, (
        Stmt::Block(vec![(
            Stmt::Repeat(
                Box::new(number(&o, b"3", 0, 1)),
                Box::new((Stmt::Invoke(call), span(2, 4))),
            ),
            span(0, 4),
        )]),
        span(0, 4),
    ));
    let o = parse(&[action(ActionKind::Repeat, b"", &[b"3"])]);
    assert_eq!(o.count, 0);
    assert_eq!(o.program, (
        Stmt::Block(vec![(
            Stmt::Repeat(
                Box::new(number(&o, b"3", 0, 1)),
                Box::new((Stmt::Block(vec![]), span(2, 2))),
            ),
            span(0, 2),
        )]),
        span(0, 2),
    ));
}

#[test]
fn an_action_for_another_instance_stands_in_a_with() {
    let mut other = plain(ActionKind::Exit);
    other.target = Target::Other;
    let mut object = action(ActionKind::Variable, b"", &[b"x", b"0"]);
    object.target = Target::Object(7);
    let o = parse(&[other, object]);
    assert_eq!(o.count, 0);
    let set = Stmt::Assign(
        (None, span(0, 0)),
        Box::new(ident(&o, b"x", 0, 1)),
        Box::new(number(&o, b"0", 2, 3)),
    );
    assert_eq!(o.program, (
        Stmt::Block(vec![
            (
                Stmt::With(
                    Box::new((Expr::Value(Value::Ident(Keyword::Other.symbol())), span(0, 0))),
                    Box::new((Stmt::Jump(Jump::Exit), span(0, 0))),
                ),
                span(0, 0),
            ),
            (
                Stmt::With(
                    Box::new((Expr::Value(Value::Real(Number::Integer(7))), span(0, 0))),
                    Box::new((set, span(0, 4))),
                ),
                span(0, 4),
            ),
        ]),
        span(0, 4),
    ));
}

#[test]
fn an_end_or_else_that_belongs_to_nothing_is_an_empty_block() {
    let o = parse(&[plain(ActionKind::End), plain(ActionKind::Else), plain(ActionKind::Begin)]);
    assert_eq!(o.count, 0);
    assert_eq!(o.program, (
        Stmt::Block(vec![
            (Stmt::Block(vec![]), span(0, 0)),
            (Stmt::Block(vec![]), span(0, 0)),
            (Stmt::Block(vec![]), span(0, 0)),
        ]),
        span(0, 0),
    ));
}

#[test]
fn diagnostics_of_actions_name_the_action_and_the_argument_or_the_line() {
    let o = parse(&[
        action(ActionKind::Normal, b"f", &[b"1", b"2 +"]),
        action(ActionKind::Code, b"", &[b"a = 1\nb = "]),
        action(ActionKind::Variable, b"", &[b"x y"]),
    ]);
    assert_eq!(o.count, 4);
    assert_eq!(
        o.output,
        "error in event 3(0) for object ball, action 1, argument 2: \
         unexpected end of input; expected expression\n\
         error in event 3(0) for object ball, action 2:2:5: \
         unexpected end of input; expected expression\n\
         error in event 3(0) for object ball, action 3, argument 1: \
         unexpected y; expected end of input\n\
         error in event 3(0) for object ball, action 3, argument 1: \
         unexpected end of input; expected expression\n"
    );
}

#[test]
fn positions_in_actions() {
    let actions = vec![
        action(ActionKind::Normal, b"f", &[b"ab", b"c"]),
        plain(ActionKind::Begin),
        action(ActionKind::Code, b"", &[b"x\ny", b"z"]),
    ];
    let lines = Lines::from_actions(&actions);
    let place = |action, argument, line, column| Position { action, argument, line, column };
    assert_eq!(lines.get_position(0), place(Some(1), Some(1), None, None));
    assert_eq!(lines.get_position(2), place(Some(1), Some(1), None, None));
    assert_eq!(lines.get_position(3), place(Some(1), Some(2), None, None));
    assert_eq!(lines.get_position(4), place(Some(1), Some(2), None, None));
    assert_eq!(lines.get_position(5), place(Some(3), None, Some(1), Some(1)));
    assert_eq!(lines.get_position(7), place(Some(3), None, Some(2), Some(1)));
    assert_eq!(lines.get_position(8), place(Some(3), None, Some(2), Some(2)));
    assert_eq!(lines.get_position(9), place(Some(3), Some(2), None, None));
    assert_eq!(lines.get_position(500), place(Some(3), Some(2), None, None));
    let none = Lines::from_actions(&[plain(ActionKind::Exit)]);
    assert_eq!(none.get_position(0), place(None, None, None, None));
}

#[test]
fn a_build_compiles_the_events_behind_the_scripts() {
    let mut ask = action(ActionKind::Normal, b"ready", &[]);
    ask.question = true;
    let game = Game {
        scripts: vec![Script { name: b"ready".to_vec(), body: b"return true".to_vec() }],
        objects: vec![
            Object { name: b"empty".to_vec(), events: vec![] },
            Object {
                name: b"ball".to_vec(),
                events: vec![
                    Event { event_type: 0, event_kind: 0, actions: vec![ask, plain(ActionKind::Exit)] },
                    Event {
                        event_type: 8,
                        event_kind: -1,
                        actions: vec![action(ActionKind::Code, b"", &[b"x = ;"])],
                    },
                ],
            },
        ],
    };
    let built = build(&game, &vec![], Interner::new());
    assert_eq!(
        String::from_utf8(built.write).unwrap(),
        "error in event 8(-1) for object ball, action 1:1:5: unexpected ;; expected expression\n"
    );
    assert_eq!(built.result.err(), Some(1));

    let mut game = game;
    game.objects[1].events.pop();
    let built = build(&game, &vec![], Interner::new());
    let (assets, debug) = built.result.unwrap();
    let first = Function::Event { object_index: 1, event_type: 0, event_kind: 0 };
    assert_eq!(assets.code.len(), 2);
    assert_eq!(assets.code[0].0, Function::Script { id: 0 });
    assert_eq!(assets.code[1].0, first);
    assert!(matches!(&assets.code[1].1.program.0, Stmt::Block(stmts) if stmts.len() == 1));
    assert!(debug.has(first));
    assert!(!debug.has(Function::Event { object_index: 0, event_type: 0, event_kind: 0 }));
}

#[test]
fn compiling_an_event_counts_its_diagnostics() {
    let mut interner = Interner::new();
    let object = interner.intern(b"o");
    let name = FunctionDisplay::Event { object, event_type: 1, event_kind: EventDisplay::Id(2) };
    let actions = [action(ActionKind::Repeat, b"", &[])];
    let done = compile_event(name, &actions, interner, Vec::new());
    assert_eq!(done.count, 1);
    assert_eq!(
        String::from_utf8(done.write).unwrap(),
        "error in event 1(2) for object o: unexpected end of input; expected expression\n"
    );
}

fn covers(outer: Span, inner: Span) -> bool {
    outer.low <= inner.low && inner.high <= outer.high && inner.low <= inner.high
}

fn check_exprs(outer: Span, list: &[(Expr, Span)]) {
    for (e, s) in list {
        assert!(covers(outer, *s), "{:?} in {:?}", s, outer);
        check_expr(e, *s);
    }
}

fn check_expr(e: &Expr, span: Span) {
    assert!(span.low <= span.high);
    match e {
        Expr::Value(_) | Expr::Error => {}
        Expr::Unary((_, op), operand) => {
            assert!(covers(span, *op));
            check_exprs(span, std::slice::from_ref(operand));
        }
        Expr::Binary((_, op), left, right) => {
            assert!(covers(span, *op));
            check_exprs(span, std::slice::from_ref(left));
            check_exprs(span, std::slice::from_ref(right));
        }
        Expr::Field(base, (_, name)) => {
            assert!(covers(span, *name));
            check_exprs(span, std::slice::from_ref(base));
        }
        Expr::Index(base, indices) => {
            check_exprs(span, std::slice::from_ref(base));
            check_exprs(span, indices);
        }
        Expr::Call(Call((_, name), args)) => {
            assert!(covers(span, *name));
            check_exprs(span, args);
        }
    }
}

fn check_stmts(outer: Span, list: &[(Stmt, Span)]) {
    for (s, span) in list {
        assert!(covers(outer, *span), "{:?} in {:?}", span, outer);
        check_stmt(s, *span);
    }
}

fn check_stmt(s: &Stmt, span: Span) {
    assert!(span.low <= span.high);
    match s {
        Stmt::Assign((_, op), place, value) => {
            assert!(covers(span, *op));
            check_exprs(span, std::slice::from_ref(place));
            check_exprs(span, std::slice::from_ref(value));
        }
        Stmt::Invoke(Call((_, name), args)) => {
            assert!(covers(span, *name));
            check_exprs(span, args);
        }
        Stmt::Declare(_, names) => {
            for (_, name) in names {
                assert!(covers(span, *name));
            }
        }
        Stmt::Block(stmts) => check_stmts(span, stmts),
        Stmt::If(cond, yes, no) => {
            check_exprs(span, std::slice::from_ref(cond));
            check_stmts(span, std::slice::from_ref(yes));
            if let Some(no) = no {
                check_stmts(span, std::slice::from_ref(no));
            }
        }
        Stmt::Repeat(head, body) | Stmt::While(head, body) | Stmt::With(head, body) => {
            check_exprs(span, std::slice::from_ref(head));
            check_stmts(span, std::slice::from_ref(body));
        }
        Stmt::Do(body, cond) => {
            check_stmts(span, std::slice::from_ref(body));
            check_exprs(span, std::slice::from_ref(cond));
        }
        Stmt::For(init, cond, next, body) => {
            check_stmts(span, std::slice::from_ref(init));
            check_exprs(span, std::slice::from_ref(cond));
            check_stmts(span, std::slice::from_ref(next));
            check_stmts(span, std::slice::from_ref(body));
        }
        Stmt::Switch(value, body) => {
            check_exprs(span, std::slice::from_ref(value));
            check_stmts(span, body);
        }
        Stmt::Case(value) => {
            if let Some(value) = value {
                check_exprs(span, std::slice::from_ref(value));
            }
        }
        Stmt::Jump(_) => {}
        Stmt::Return(value) => check_exprs(span, std::slice::from_ref(value)),
        Stmt::Error(e) => check_expr(e, span),
    }
}

/// The span of every node of the tree of an event covers the spans of
/// its children, also where code begins with blanks, where an action
/// applies to another instance and where the actions are not balanced.
#[test]
fn every_span_of_an_event_covers_the_spans_within() {
    let mut code = action(ActionKind::Code, b"", &[b"  x = 1 +  "]);
    code.target = Target::Other;
    let mut question = action(ActionKind::Normal, b"check", &[b" a ", b"b +"]);
    question.question = true;
    question.negate = true;
    question.target = Target::Object(3);
    let mut set = action(ActionKind::Variable, b"", &[b" y ", b"  2"]);
    set.relative = true;
    set.target = Target::Object(1);
    let actions = [
        code,
        plain(ActionKind::Else),
        question,
        plain(ActionKind::Begin),
        action(ActionKind::Repeat, b"", &[b" 3 )"]),
        set,
        action(ActionKind::Normal, b"show", &[b"1", b"", b" z.w "]),
        plain(ActionKind::End),
        plain(ActionKind::Else),
        plain(ActionKind::Begin),
        plain(ActionKind::Exit),
    ];
    let o = parse(&actions);
    assert!(o.count > 0);
    check_stmt(&o.program.0, o.program.1);
}

/// A `with` begins where its action begins, also where the code of the
/// action begins with blanks.
#[test]
fn a_with_begins_where_its_action_begins() {
    let mut code = action(ActionKind::Code, b"", &[b"  exit "]);
    code.target = Target::Other;
    let o = parse(&[action(ActionKind::Variable, b"", &[b"x", b"0"]), code]);
    assert_eq!(o.count, 0);
    match &o.program.0 {
        Stmt::Block(stmts) => {
            assert_eq!(stmts.len(), 2);
            assert_eq!(stmts[1].1.low, 4);
            assert!(stmts[1].1.high <= 11);
            match &stmts[1].0 {
                Stmt::With(target, body) => {
                    assert_eq!(target.1, span(4, 4));
                    assert!(body.1.low >= 6);
                    assert!(body.1.high <= stmts[1].1.high);
                }
                other => panic!("{:?}", other),
            }
        }
        other => panic!("{:?}", other),
    }
}
