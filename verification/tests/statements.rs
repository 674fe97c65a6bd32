use gml::front::ast::{Binary, Call, Declare, Expr, Jump, Number, Op, Stmt, Unary, Value};
use gml::front::lexer::Lexer;
use gml::front::lines::Lines;
use gml::front::parser::Parser;
use gml::front::Span;
use gml::symbol::{Interner, Keyword, Symbol};
use gml::{ErrorPrinter, FunctionDisplay};

fn span(low: usize, high: usize) -> Span {
    Span { low, high }
}

struct Outcome {
    program: (Stmt, Span),
    count: u32,
    output: String,
    interner: Interner,
}

fn parse(source: &[u8]) -> Outcome {
    let lines = Lines::from_code(source);
    let mut interner = Interner::new();
    let script = interner.intern(b"<test>");
    let errors = ErrorPrinter::new(FunctionDisplay::Script { script }, &lines, Vec::new());
    let mut parser = Parser::new(Lexer::new(source, 0, interner), errors);
    let program = parser.parse_program();
    let (reader, errors) = parser.into_parts();
    Outcome {
        program,
        count: errors.count,
        output: String::from_utf8(errors.write).unwrap(),
        interner: reader.into_interner(),
    }
}

fn name(outcome: &Outcome, text: &[u8]) -> Symbol {
    outcome.interner.get(text).unwrap()
}

fn ident(outcome: &Outcome, text: &[u8], low: usize, high: usize) -> Box<(Expr, Span)> {
    Box::new((Expr::Value(Value::Ident(name(outcome, text))), span(low, high)))
}

fn number(outcome: &Outcome, text: &[u8], low: usize, high: usize) -> Box<(Expr, Span)> {
    Box::new((Expr::Value(Value::Real(Number::Decimal(name(outcome, text)))), span(low, high)))
}

fn only(outcome: &Outcome) -> &(Stmt, Span) {
    match &outcome.program.0 {
        Stmt::Block(stmts) => {
            assert_eq!(stmts.len(), 1);
            &stmts[0]
        }
        other => panic!("no block: {:?}", other),
    }
}

#[test]
fn if_with_then_and_else() {
    let o = parse(b"if a then b = 1 else c = 2");
    assert_eq!(o.count, 0);
    assert_eq!(o.program.1, span(0, 26));
    assert_eq!(*only(&o), (
        Stmt::If(
            ident(&o, b"a", 3, 4),
            Box::new((
                Stmt::Assign((None, span(12, 13)), ident(&o, b"b", 10, 11), number(&o, b"1", 14, 15)),
                span(10, 15),
            )),
            Some(Box::new((
                Stmt::Assign((None, span(23, 24)), ident(&o, b"c", 21, 22), number(&o, b"2", 25, 26)),
                span(21, 26),
            ))),
        ),
        span(0, 26),
    ));
}

#[test]
fn repeat_with_a_compound_assignment() {
    let o = parse(b"repeat 3 x += 1");
    assert_eq!(o.count, 0);
    assert_eq!(*only(&o), (
        Stmt::Repeat(
            number(&o, b"3", 7, 8),
            Box::new((
                Stmt::Assign(
                    (Some(Op::Add), span(11, 13)),
                    ident(&o, b"x", 9, 10),
                    number(&o, b"1", 14, 15),
                ),
                span(9, 15),
            )),
        ),
        span(0, 15),
    ));
}

#[test]
fn while_with_do_and_an_empty_block() {
    let o = parse(b"while (a) do begin end");
    assert_eq!(o.count, 0);
    assert_eq!(*only(&o), (
        Stmt::While(ident(&o, b"a", 7, 8), Box::new((Stmt::Block(vec![]), span(13, 22)))),
        span(0, 22),
    ));
}

#[test]
fn with_takes_a_keyword_as_its_target() {
    let o = parse(b"with other x = 1;;");
    assert_eq!(o.count, 0);
    assert_eq!(*only(&o), (
        Stmt::With(
            Box::new((Expr::Value(Value::Ident(Keyword::Other.symbol())), span(5, 10))),
            Box::new((
                Stmt::Assign((None, span(13, 14)), ident(&o, b"x", 11, 12), number(&o, b"1", 15, 16)),
                span(11, 18),
            )),
        ),
        span(0, 18),
    ));
}

#[test]
fn do_until() {
    let o = parse(b"do x = 1 until x");
    assert_eq!(o.count, 0);
    assert_eq!(*only(&o), (
        Stmt::Do(
            Box::new((
                Stmt::Assign((None, span(5, 6)), ident(&o, b"x", 3, 4), number(&o, b"1", 7, 8)),
                span(3, 8),
            )),
            ident(&o, b"x", 15, 16),
        ),
        span(0, 16),
    ));
}

#[test]
fn for_covers_its_body() {
    let o = parse(b"for (i = 0; i < 3; i += 1) x = i");
    assert_eq!(o.count, 0);
    assert_eq!(*only(&o), (
        Stmt::For(
            Box::new((
                Stmt::Assign((None, span(7, 8)), ident(&o, b"i", 5, 6), number(&o, b"0", 9, 10)),
                span(5, 11),
            )),
            Box::new((
                Expr::Binary((Binary::Lt, span(14, 15)), ident(&o, b"i", 12, 13), number(&o, b"3", 16, 17)),
                span(12, 17),
            )),
            Box::new((
                Stmt::Assign(
                    (Some(Op::Add), span(21, 23)),
                    ident(&o, b"i", 19, 20),
                    number(&o, b"1", 24, 25),
                ),
                span(19, 25),
            )),
            Box::new((
                Stmt::Assign((None, span(29, 30)), ident(&o, b"x", 27, 28), ident(&o, b"i", 31, 32)),
                span(27, 32),
            )),
        ),
        span(0, 32),
    ));
}

#[test]
fn switch_with_cases_and_jumps() {
    let o = parse(b"switch x { case 1: y = 2 break default: exit }");
    assert_eq!(o.count, 0);
    assert_eq!(*only(&o), (
        Stmt::Switch(
            ident(&o, b"x", 7, 8),
            vec![
                (Stmt::Case(Some(number(&o, b"1", 16, 17))), span(11, 18)),
                (
                    Stmt::Assign((None, span(21, 22)), ident(&o, b"y", 19, 20), number(&o, b"2", 23, 24)),
                    span(19, 24),
                ),
                (Stmt::Jump(Jump::Break), span(25, 30)),
                (Stmt::Case(None), span(31, 39)),
                (Stmt::Jump(Jump::Exit), span(40, 44)),
            ],
        ),
        span(0, 46),
    ));
    let o = parse(b"switch (x) { }");
    assert_eq!(o.count, 0);
    assert_eq!(*only(&o), (Stmt::Switch(ident(&o, b"x", 8, 9), vec![]), span(0, 14)));
    let o = parse(b"continue");
    assert_eq!(*only(&o), (Stmt::Jump(Jump::Continue), span(0, 8)));
}

#[test]
fn return_with_fields_indices_and_a_call() {
    let o = parse(b"return a.b[1, 2] + f(3)");
    assert_eq!(o.count, 0);
    let index = Expr::Index(
        Box::new((
            Expr::Field(ident(&o, b"a", 7, 8), (name(&o, b"b"), span(9, 10))),
            span(7, 10),
        )),
        vec![*number(&o, b"1", 11, 12), *number(&o, b"2", 14, 15)],
    );
    let call = Expr::Call(Call((name(&o, b"f"), span(19, 20)), vec![*number(&o, b"3", 21, 22)]));
    assert_eq!(*only(&o), (
        Stmt::Return(Box::new((
            Expr::Binary(
                (Binary::Op(Op::Add), span(17, 18)),
                Box::new((index, span(7, 16))),
                Box::new((call, span(19, 23))),
            ),
            span(7, 23),
        ))),
        span(0, 23),
    ));
}

#[test]
fn a_prefix_operator_binds_tighter_than_any_other() {
    let o = parse(b"x = -y * !z");
    assert_eq!(o.count, 0);
    let negated = Expr::Unary((Unary::Negate, span(4, 5)), ident(&o, b"y", 5, 6));
    let inverted = Expr::Unary((Unary::Invert, span(9, 10)), ident(&o, b"z", 10, 11));
    assert_eq!(*only(&o), (
        Stmt::Assign(
            (None, span(2, 3)),
            ident(&o, b"x", 0, 1),
            Box::new((
                Expr::Binary(
                    (Binary::Op(Op::Multiply), span(7, 8)),
                    Box::new((negated, span(4, 6))),
                    Box::new((inverted, span(9, 11))),
                ),
                span(4, 11),
            )),
        ),
        span(0, 11),
    ));
}

fn operator(source: &[u8]) -> Binary {
    let o = parse(source);
    assert_eq!(o.count, 0);
    match &only(&o).0 {
        Stmt::Return(value) => match &value.0 {
            Expr::Binary((op, _), _, _) => *op,
            other => panic!("no binary: {:?}", other),
        },
        other => panic!("no return: {:?}", other),
    }
}

#[test]
fn operators_bind_by_their_level_and_to_the_left() {
    assert_eq!(operator(b"return a + b * c"), Binary::Op(Op::Add));
    assert_eq!(operator(b"return a * b + c"), Binary::Op(Op::Add));
    assert_eq!(operator(b"return a - b - c"), Binary::Op(Op::Subtract));
    assert_eq!(operator(b"return a << b + c"), Binary::ShiftLeft);
    assert_eq!(operator(b"return a & b >> c"), Binary::Op(Op::BitAnd));
    assert_eq!(operator(b"return a < b | c"), Binary::Lt);
    assert_eq!(operator(b"return a and b == c"), Binary::And);
    assert_eq!(operator(b"return a || b <> c"), Binary::Or);
    assert_eq!(operator(b"return a xor b >= c"), Binary::Xor);
    assert_eq!(operator(b"return a div b mod c"), Binary::Mod);
    assert_eq!(operator(b"return a = b"), Binary::Eq);
    assert_eq!(operator(b"return a := b"), Binary::Eq);
    assert_eq!(operator(b"return a != b ^^ c"), Binary::Xor);
    assert_eq!(operator(b"return (a + b) * c"), Binary::Op(Op::Multiply));
    let o = parse(b"return a - b - c");
    match &only(&o).0 {
        Stmt::Return(value) => match &value.0 {
            Expr::Binary(_, left, right) => {
                assert!(matches!(left.0, Expr::Binary((Binary::Op(Op::Subtract), _), _, _)));
                assert_eq!(*right, ident(&o, b"c", 15, 16));
            }
            other => panic!("no binary: {:?}", other),
        },
        other => panic!("no return: {:?}", other),
    }
}

#[test]
fn hexadecimal_literals_are_whole_numbers() {
    let o = parse(b"x = $ff + $FFFFFFFFFFFFFFFF");
    assert_eq!(o.count, 0);
    match &only(&o).0 {
        Stmt::Assign(_, _, value) => match &value.0 {
            Expr::Binary(_, left, right) => {
                assert_eq!(left.0, Expr::Value(Value::Real(Number::Integer(255))));
                assert_eq!(right.0, Expr::Value(Value::Real(Number::Integer(u64::MAX))));
            }
            other => panic!("no binary: {:?}", other),
        },
        other => panic!("no assignment: {:?}", other),
    }
}

#[test]
fn a_hexadecimal_literal_that_is_too_long_or_empty_is_reported() {
    let o = parse(b"x = $10000000000000000");
    assert_eq!(o.count, 1);
    assert_eq!(o.output, "error in script <test>:1:5: invalid integer literal\n");
    match &only(&o).0 {
        Stmt::Assign(_, _, value) => {
            assert_eq!(value.0, Expr::Value(Value::Real(Number::Integer(0))))
        }
        other => panic!("no assignment: {:?}", other),
    }
    let o = parse(b"x = $");
    assert_eq!(o.count, 1);
    assert_eq!(o.output, "error in script <test>:1:5: invalid integer literal\n");
}

#[test]
fn a_declaration_with_an_initialiser_is_reported() {
    let o = parse(b"var x = 3;");
    assert_eq!(o.count, 1);
    assert_eq!(o.output, "error in script <test>:1:7: unexpected =; expected ;\n");
    assert_eq!(*only(&o), (
        Stmt::Declare(Declare::Local, vec![(name(&o, b"x"), span(4, 5))]),
        span(0, 10),
    ));
    let o = parse(b"globalvar a, b c;");
    assert_eq!(o.count, 0);
    assert_eq!(*only(&o), (
        Stmt::Declare(
            Declare::Global,
            vec![
                (name(&o, b"a"), span(10, 11)),
                (name(&o, b"b"), span(13, 14)),
                (name(&o, b"c"), span(15, 16)),
            ],
        ),
        span(0, 17),
    ));
}

#[test]
fn a_missing_semicolon_after_a_declaration_is_reported() {
    let o = parse(b"var x\ny = 1");
    assert_eq!(o.count, 2);
    assert_eq!(
        o.output,
        "error in script <test>:2:3: unexpected =; expected ;\n\
         error in script <test>:2:6: unexpected end of input; expected ;\n"
    );
    let o = parse(b"var x\nif y exit");
    assert_eq!(o.count, 1);
    assert_eq!(o.output, "error in script <test>:2:1: unexpected if; expected ;\n");
}

#[test]
fn a_missing_expression_is_reported() {
    let o = parse(b"x = ");
    assert_eq!(o.count, 1);
    assert_eq!(o.output, "error in script <test>:1:5: unexpected end of input; expected expression\n");
    assert_eq!(*only(&o), (
        Stmt::Assign(
            (None, span(2, 3)),
            ident(&o, b"x", 0, 1),
            Box::new((Expr::Error, span(4, 4))),
        ),
        span(0, 4),
    ));
}

#[test]
fn a_block_that_is_not_closed_is_reported() {
    let o = parse(b"{ x = 1");
    assert_eq!(o.count, 1);
    assert_eq!(o.output, "error in script <test>:1:8: unexpected end of input; expected }\n");
    assert_eq!(o.program.1, span(0, 7));
}

#[test]
fn tokens_behind_a_block_are_reported() {
    let o = parse(b"{ } x");
    assert_eq!(o.count, 1);
    assert_eq!(o.output, "error in script <test>:1:5: unexpected x; expected end of input\n");
    assert_eq!(o.program, (Stmt::Block(vec![]), span(0, 3)));
}

#[test]
fn a_token_that_closes_no_block_is_passed_over() {
    let o = parse(b"}");
    assert_eq!(o.count, 1);
    assert_eq!(o.output, "error in script <test>:1:1: unexpected }; expected expression\n");
    assert_eq!(o.program, (
        Stmt::Block(vec![(Stmt::Error(Expr::Error), span(0, 0))]),
        span(0, 0),
    ));
    let o = parse(b"x = 1 end y = 2");
    assert_eq!(o.count, 1);
    match &o.program.0 {
        Stmt::Block(stmts) => {
            assert_eq!(stmts.len(), 3);
            assert!(matches!(stmts[1].0, Stmt::Error(Expr::Error)));
            assert!(matches!(stmts[2].0, Stmt::Assign(..)));
        }
        other => panic!("no block: {:?}", other),
    }
}

#[test]
fn a_call_of_what_stands_in_parentheses_is_rejected() {
    let o = parse(b"(f)(x)");
    assert_eq!(o.count, 2);
    assert_eq!(
        o.output,
        "error in script <test>:1:4: unexpected (; expected assignment operator\n\
         error in script <test>:1:7: unexpected end of input; expected assignment operator\n"
    );
    assert_eq!(o.program, (
        Stmt::Block(vec![
            (Stmt::Error(Expr::Value(Value::Ident(name(&o, b"f")))), span(0, 2)),
            (Stmt::Error(Expr::Value(Value::Ident(name(&o, b"x")))), span(3, 5)),
        ]),
        span(0, 5),
    ));
}

#[test]
fn a_list_of_arguments_that_is_not_closed_is_reported() {
    let o = parse(b"f(1, 2");
    assert_eq!(o.count, 1);
    assert_eq!(o.output, "error in script <test>:1:7: unexpected end of input; expected ) or ,\n");
    assert_eq!(*only(&o), (
        Stmt::Invoke(Call(
            (name(&o, b"f"), span(0, 1)),
            vec![*number(&o, b"1", 2, 3), *number(&o, b"2", 5, 6)],
        )),
        span(0, 6),
    ));
}

#[test]
fn a_field_needs_a_name() {
    let o = parse(b"a.1 = 2");
    assert_eq!(o.count, 2);
    assert_eq!(
        o.output,
        "error in script <test>:1:3: unexpected 1; expected identifier\n\
         error in script <test>:1:3: unexpected 1; expected assignment operator\n"
    );
}

#[test]
fn recovery_skips_to_the_next_statement() {
    let o = parse(b"{ x ) ) ; y = 1 }");
    assert_eq!(o.count, 1);
    assert_eq!(o.output, "error in script <test>:1:5: unexpected ); expected assignment operator\n");
    match &o.program.0 {
        Stmt::Block(stmts) => {
            assert_eq!(stmts.len(), 2);
            assert!(matches!(stmts[0].0, Stmt::Error(_)));
            assert!(matches!(stmts[1].0, Stmt::Assign(..)));
        }
        other => panic!("no block: {:?}", other),
    }
}

#[test]
fn an_unterminated_string_is_an_unexpected_token() {
    let o = parse(b"x = \"abc");
    assert_eq!(o.count, 2);
    assert_eq!(
        o.output,
        "error in script <test>:1:5: unexpected unterminated string; expected expression\n\
         error in script <test>:1:5: unexpected unterminated string; expected expression\n"
    );
}

fn covers(outer: Span, inner: Span) -> bool {
    outer.low <= inner.low && inner.high <= outer.high && inner.low <= inner.high
}

fn check_exprs(outer: Span, list: &[(Expr, Span)]) {
    for (e, s) in list {
        assert!(covers(outer, *s), "{:?} in {:?}", s, outer);
        check_expr(e, *s);
    }
}

fn check_expr(e: &Expr, span: Span) {
    assert!(span.low <= span.high);
    match e {
        Expr::Value(_) | Expr::Error => {}
        Expr::Unary((_, op), operand) => {
            assert!(covers(span, *op));
            check_exprs(span, std::slice::from_ref(operand));
        }
        Expr::Binary((_, op), left, right) => {
            assert!(covers(span, *op));
            check_exprs(span, std::slice::from_ref(left));
            check_exprs(span, std::slice::from_ref(right));
        }
        Expr::Field(base, (_, name)) => {
            assert!(covers(span, *name));
            check_exprs(span, std::slice::from_ref(base));
        }
        Expr::Index(base, indices) => {
            check_exprs(span, std::slice::from_ref(base));
            check_exprs(span, indices);
        }
        Expr::Call(Call((_, name), args)) => {
            assert!(covers(span, *name));
            check_exprs(span, args);
        }
    }
}

fn check_stmts(outer: Span, list: &[(Stmt, Span)]) {
    for (s, span) in list {
        assert!(covers(outer, *span), "{:?} in {:?}", span, outer);
        check_stmt(s, *span);
    }
}

fn check_stmt(s: &Stmt, span: Span) {
    assert!(span.low <= span.high);
    match s {
        Stmt::Assign((_, op), place, value) => {
            assert!(covers(span, *op));
            check_exprs(span, std::slice::from_ref(place));
            check_exprs(span, std::slice::from_ref(value));
        }
        Stmt::Invoke(Call((_, name), args)) => {
            assert!(covers(span, *name));
            check_exprs(span, args);
        }
        Stmt::Declare(_, names) => {
            for (_, name) in names {
                assert!(covers(span, *name));
            }
        }
        Stmt::Block(stmts) => check_stmts(span, stmts),
        Stmt::If(cond, yes, no) => {
            check_exprs(span, std::slice::from_ref(cond));
            check_stmts(span, std::slice::from_ref(yes));
            if let Some(no) = no {
                check_stmts(span, std::slice::from_ref(no));
            }
        }
        Stmt::Repeat(head, body) | Stmt::While(head, body) | Stmt::With(head, body) => {
            check_exprs(span, std::slice::from_ref(head));
            check_stmts(span, std::slice::from_ref(body));
        }
        Stmt::Do(body, cond) => {
            check_stmts(span, std::slice::from_ref(body));
            check_exprs(span, std::slice::from_ref(cond));
        }
        Stmt::For(init, cond, next, body) => {
            check_stmts(span, std::slice::from_ref(init));
            check_exprs(span, std::slice::from_ref(cond));
            check_stmts(span, std::slice::from_ref(next));
            check_stmts(span, std::slice::from_ref(body));
        }
        Stmt::Switch(value, body) => {
            check_exprs(span, std::slice::from_ref(value));
            check_stmts(span, body);
        }
        Stmt::Case(value) => {
            if let Some(value) = value {
                check_exprs(span, std::slice::from_ref(value));
            }
        }
        Stmt::Jump(_) => {}
        Stmt::Return(value) => check_exprs(span, std::slice::from_ref(value)),
        Stmt::Error(e) => check_expr(e, span),
    }
}

/// The span of every node covers the spans of its children, in programs
/// with and without mistakes.
#[test]
fn every_span_covers_the_spans_within() {
    let sources: [&[u8]; 12] = [
        b"{ var a, b; a = 1; if (a) { b[a, 2] = f(a, b.c) } else repeat 2 a -= 1 }",
        b"for (i = 0; i < 10; i += 1) { with (all) x = other.x * -2 }",
        b"switch a { case 1: case 2: b = 3; break; default: return b }",
        b"do { x = $ff } until x == 255 while (true) exit",
        b"var x ) y = 1",
        b"if f(x } y",
        b"x = (1 + ",
        b"for i = 0 i < 3",
        b"} end ) ] x",
        b"a[1 b(2 c.",
        b"switch x case 1: y",
        b"do x until",
    ];
    for source in sources {
        let o = parse(source);
        check_stmt(&o.program.0, o.program.1);
    }
}
