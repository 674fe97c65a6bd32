use gml::diagnostics::{Expected, Fault, Message};
use gml::front::lines::{Lines, Position};
use gml::front::token::{Delim, Token};
use gml::front::Span;
use gml::symbol::{Interner, Keyword};
use gml::vm::Locations;
use gml::{display_event, ErrorPrinter, EventDisplay, Function, FunctionDisplay};

fn at(low: usize) -> Span {
    Span { low, high: low }
}

#[test]
fn positions_count_lines_and_columns_from_one() {
    let lines = Lines::from_code(b"ab\ncd\n\nef");
    let place = |line, column| Position {
        action: None,
        argument: None,
        line: Some(line),
        column: Some(column),
    };
    assert_eq!(lines.get_position(0), place(1, 1));
    assert_eq!(lines.get_position(1), place(1, 2));
    assert_eq!(lines.get_position(2), place(1, 3));
    assert_eq!(lines.get_position(3), place(2, 1));
    assert_eq!(lines.get_position(6), place(3, 1));
    assert_eq!(lines.get_position(7), place(4, 1));
    assert_eq!(lines.get_position(9), place(4, 3));
    assert_eq!(lines.get_position(1000), place(4, 3));
    assert_eq!(Lines::default().get_position(5), place(1, 1));
}

#[test]
fn a_diagnostic_names_the_function_the_place_and_the_message() {
    let mut interner = Interner::new();
    let script = interner.intern(b"main");
    let x = interner.intern(b"x");
    let lines = Lines::from_code(b"a = 1\nb = x y");
    let mut errors = ErrorPrinter::new(FunctionDisplay::Script { script }, &lines, Vec::new());
    errors.error(
        &interner,
        at(12),
        Message::Unexpected(Token::Ident(x), Expected::Token(Token::Semicolon)),
    );
    assert_eq!(errors.count, 1);
    assert_eq!(errors.write, b"error in script main:2:7: unexpected x; expected ;\n");
    errors.error(&interner, at(0), Message::InvalidNumber);
    assert_eq!(errors.count, 2);
    assert_eq!(
        errors.write,
        b"error in script main:2:7: unexpected x; expected ;\n\
          error in script main:1:1: invalid numeric literal\n".to_vec()
    );
}

#[test]
fn messages_read_as_they_should() {
    let mut interner = Interner::new();
    let f = interner.intern(b"f");
    let text = |message: Message| String::from_utf8(message.text(&interner)).unwrap();
    assert_eq!(
        text(Message::Unexpected(Token::Eof, Expected::Token(Token::CloseDelim(Delim::Brace)))),
        "unexpected end of input; expected }"
    );
    assert_eq!(
        text(Message::Unexpected(
            Token::Keyword(Keyword::Then),
            Expected::Either(Token::CloseDelim(Delim::Paren), Token::Comma),
        )),
        "unexpected then; expected ) or ,"
    );
    assert_eq!(
        text(Message::Unexpected(Token::Ident(f), Expected::AssignmentOperator)),
        "unexpected f; expected assignment operator"
    );
    assert_eq!(
        text(Message::Unexpected(Token::Dot, Expected::Identifier)),
        "unexpected .; expected identifier"
    );
    assert_eq!(
        text(Message::Unexpected(Token::Comma, Expected::Expression)),
        "unexpected ,; expected expression"
    );
    assert_eq!(text(Message::InvalidNumber), "invalid numeric literal");
    assert_eq!(text(Message::InvalidInteger), "invalid integer literal");
    assert_eq!(text(Message::Runtime(Fault::DivideByZero)), "division by zero");
    assert_eq!(text(Message::Runtime(Fault::TypeMismatch)), "type mismatch");
}

#[test]
fn events_are_named_by_type_kind_and_object() {
    let mut interner = Interner::new();
    let player = interner.intern(b"player");
    let step = interner.intern(b"step");
    assert_eq!(
        display_event(player, 3, EventDisplay::Id(0), &interner),
        b"event 3(0) for object player"
    );
    assert_eq!(
        display_event(player, 4294967295, EventDisplay::Id(-2147483648), &interner),
        b"event 4294967295(-2147483648) for object player"
    );
    assert_eq!(
        display_event(player, 10, EventDisplay::Name(step), &interner),
        b"event 10(step) for object player"
    );
    let name = FunctionDisplay::Event {
        object: player,
        event_type: 7,
        event_kind: EventDisplay::Id(12),
    };
    assert_eq!(name.text(&interner), b"event 7(12) for object player");
    let name = FunctionDisplay::Script { script: step };
    assert_eq!(name.text(&interner), b"script step");
}

#[test]
fn the_count_stops_at_the_largest_number() {
    let mut interner = Interner::new();
    let script = interner.intern(b"s");
    let lines = Lines::default();
    let mut errors = ErrorPrinter::new(FunctionDisplay::Script { script }, &lines, Vec::new());
    errors.count = u32::MAX - 1;
    errors.error(&interner, at(0), Message::InvalidInteger);
    assert_eq!(errors.count, u32::MAX);
    errors.error(&interner, at(0), Message::InvalidInteger);
    assert_eq!(errors.count, u32::MAX);
}

#[test]
fn a_printer_is_made_for_a_function_of_the_debug_index() {
    let mut interner = Interner::new();
    let main = interner.intern(b"main");
    let wall = interner.intern(b"wall");
    let script = Function::Script { id: 0 };
    let event = Function::Event { object_index: 0, event_type: 2, event_kind: 5 };
    let debug = gml::vm::Debug {
        scripts: vec![main],
        objects: vec![wall],
        locations: vec![
            (script, Locations { lines: Lines::from_code(b"x\ny") }),
            (event, Locations { lines: Lines::from_code(b"\n\nz") }),
        ],
    };
    assert!(debug.has(script));
    assert!(debug.has(event));
    assert!(!debug.has(Function::Script { id: 1 }));
    assert!(!debug.has(Function::Script { id: -1 }));
    assert!(!debug.has(Function::Event { object_index: 0, event_type: 2, event_kind: 6 }));
    assert_eq!(debug.find(event), Some(1));

    let mut errors = ErrorPrinter::from_debug(&debug, script, Vec::new());
    assert_eq!(errors.name, FunctionDisplay::Script { script: main });
    assert_eq!(errors.count, 0);
    errors.error(&interner, at(2), Message::Runtime(Fault::UndefinedRead));
    assert_eq!(errors.write, b"error in script main:2:1: read of an undefined variable\n");

    let mut errors = ErrorPrinter::from_debug(&debug, event, b"> ".to_vec());
    assert_eq!(
        errors.name,
        FunctionDisplay::Event { object: wall, event_type: 2, event_kind: EventDisplay::Id(5) }
    );
    errors.error(&interner, at(2), Message::Runtime(Fault::Native));
    assert_eq!(
        errors.write,
        b"> error in event 2(5) for object wall:3:1: error in a native function\n".to_vec()
    );
    assert_eq!(
        EventDisplay::from_debug(&debug, 2, 5),
        EventDisplay::Id(5)
    );
}
