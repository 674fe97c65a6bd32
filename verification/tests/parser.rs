use gml::front::ast::{Binary, Call, Declare, Expr, Number, Op, Stmt, Value};
use gml::front::lexer::Lexer;
use gml::front::lines::Lines;
use gml::front::parser::Parser;
use gml::front::Span;
use gml::symbol::{Interner, Symbol};
use gml::{ErrorPrinter, FunctionDisplay};

fn span(low: usize, high: usize) -> Span {
    Span { low, high }
}

fn decimal(interner: &mut Interner, text: &[u8]) -> Number {
    Number::Decimal(interner.intern(text))
}

/// The number that a literal of the syntax tree stands for.
fn value_of(number: Number, interner: &Interner) -> f64 {
    match number {
        Number::Integer(value) => value as f64,
        Number::Decimal(text) => {
            let text = std::str::from_utf8(interner.name(text)).unwrap();
            text.parse::<f64>().unwrap()
        }
    }
}

fn printer<'a>(interner: &mut Interner, lines: &'a Lines) -> ErrorPrinter<'a> {
    let script = interner.intern(b"<test>");
    ErrorPrinter::new(FunctionDisplay::Script { script }, lines, Vec::new())
}

#[test]
fn program() {
    let source: &[u8] = b"{ \
        var x; \
        x = 3 \
        show_message(x * y) \
    }";
    let lines = Lines::from_code(source);
    let mut interner = Interner::new();
    let errors = printer(&mut interner, &lines);
    let x = interner.intern(b"x");
    let y = interner.intern(b"y");
    let three = decimal(&mut interner, b"3");
    let show_message = interner.intern(b"show_message");
    assert_eq!(value_of(three, &interner), 3.0);

    let reader = Lexer::new(source, 0, interner);
    let mut parser = Parser::new(reader, errors);
    assert_eq!(parser.parse_program(), (
        Stmt::Block(vec![
            (Stmt::Declare(
                Declare::Local,
                vec![(x, span(6, 7))],
            ), span(2, 8)),
            (Stmt::Assign(
                (None, span(11, 12)),
                Box::new((Expr::Value(Value::Ident(x)), span(9, 10))),
                Box::new((Expr::Value(Value::Real(three)), span(13, 14))),
            ), span(9, 14)),
            (Stmt::Invoke(Call(
                (show_message, span(15, 27)),
                vec![(Expr::Binary(
                    (Binary::Op(Op::Multiply), span(30, 31)),
                    Box::new((Expr::Value(Value::Ident(x)), span(28, 29))),
                    Box::new((Expr::Value(Value::Ident(y)), span(32, 33))),
                ), span(28, 33))],
            )), span(15, 34)),
        ]),
        span(0, 36),
    ));
    let (_, errors) = parser.into_parts();
    assert_eq!(errors.count, 0);
}

#[test]
fn precedence() {
    let source: &[u8] = b"x + y * (3 + z)";
    let lines = Lines::from_code(source);
    let mut interner = Interner::new();
    let errors = printer(&mut interner, &lines);
    let x = interner.intern(b"x");
    let y = interner.intern(b"y");
    let z = interner.intern(b"z");
    let three = decimal(&mut interner, b"3");
    assert_eq!(value_of(three, &interner), 3.0);

    let reader = Lexer::new(source, 0, interner);
    let mut parser = Parser::new(reader, errors);
    assert_eq!(parser.parse_expression(0), (
        Expr::Binary(
            (Binary::Op(Op::Add), span(2, 3)),
            Box::new((Expr::Value(Value::Ident(x)), span(0, 1))),
            Box::new((Expr::Binary(
                (Binary::Op(Op::Multiply), span(6, 7)),
                Box::new((Expr::Value(Value::Ident(y)), span(4, 5))),
                Box::new((Expr::Binary(
                    (Binary::Op(Op::Add), span(11, 12)),
                    Box::new((Expr::Value(Value::Real(three)), span(9, 10))),
                    Box::new((Expr::Value(Value::Ident(z)), span(13, 14))),
                ), span(9, 14))),
            ), span(4, 14))),
        ),
        span(0, 14)
    ));
}

#[test]
fn symbols_are_shared() {
    let mut interner = Interner::new();
    let a = interner.intern(b"alpha");
    let b = interner.intern(b"beta");
    assert_ne!(a, b);
    assert_eq!(interner.intern(b"alpha"), a);
    assert_eq!(interner.name(b), b"beta");
    assert_eq!(interner.get(b"gamma"), None::<Symbol>);
}
