//! Diagnostics: what can be reported, and the line that each report writes.
//!
//! A line reads `error in <function>[, action <n>][, argument <n>]
//! [:<line>[:<column>]]: <message>`; what stands in square brackets is
//! written when the position holds it.

use vstd::prelude::*;
use vstd::string::*;
use crate::front::lines::{locate, Lines, Part, Position};
use crate::front::token::{append, name_of, symbol_text, Token};
use crate::front::Span;
use crate::symbol::{extends, Interner, Symbol};
use crate::Function;

verus! {

/// What the parser wanted to see.
#[derive(Clone, Copy, Debug, PartialEq, Eq, Structural)]
pub enum Expected {
    Token(Token),
    Either(Token, Token),
    AssignmentOperator,
    Identifier,
    Expression,
}

/// What went wrong while a function ran.
#[derive(Clone, Copy, Debug, PartialEq, Eq, Structural)]
pub enum Fault {
    TypeMismatch,
    DivideByZero,
    UndefinedRead,
    UndeclaredScript,
    InstanceOutOfRange,
    NegativeIndex,
    Native,
}

/// What a diagnostic says.
#[derive(Clone, Copy, Debug, PartialEq, Eq, Structural)]
pub enum Message {
    Unexpected(Token, Expected),
    InvalidNumber,
    InvalidInteger,
    Runtime(Fault),
}

/// One diagnostic: where, and what.
pub struct Report {
    pub span: Span,
    pub message: Message,
}

/// How the kind of an event is shown: by its number or by a name.
#[derive(Clone, Copy, Debug, PartialEq, Eq, Structural)]
pub enum EventDisplay {
    Id(i32),
    Name(Symbol),
}

/// How a function is named in a diagnostic.
#[derive(Clone, Copy, Debug, PartialEq, Eq, Structural)]
pub enum FunctionDisplay {
    Event { object: Symbol, event_type: u32, event_kind: EventDisplay },
    Script { script: Symbol },
}

/// The digits of a number, in base ten.
pub open spec fn decimal(n: nat) -> Seq<u8>
    decreases n,
{
    if n < 10 {
        seq![(48 + n) as u8]
    } else {
        decimal(n / 10).push((48 + n % 10) as u8)
    }
}

/// The digits of a number, after a minus sign where it is negative.
pub open spec fn signed_decimal(n: int) -> Seq<u8> {
    if n < 0 {
        "-".spec_bytes() + decimal((-n) as nat)
    } else {
        decimal(n as nat)
    }
}

/// How an event is named: `event <type>(<kind>) for object <name>`.
pub open spec fn event_text(
    object: Symbol,
    event_type: u32,
    event_kind: EventDisplay,
    names: Seq<Seq<u8>>,
) -> Seq<u8> {
    let kind = match event_kind {
        EventDisplay::Id(id) => signed_decimal(id as int),
        EventDisplay::Name(name) => name_of(names, name),
    };
    "event ".spec_bytes() + decimal(event_type as nat) + "(".spec_bytes() + kind + ")".spec_bytes()
        + " for object ".spec_bytes() + name_of(names, object)
}

/// What an expectation reads as.
pub open spec fn expected_text(expected: Expected, names: Seq<Seq<u8>>) -> Seq<u8> {
    match expected {
        Expected::Token(t) => t.spec_text(names),
        Expected::Either(a, b) => a.spec_text(names) + " or ".spec_bytes() + b.spec_text(names),
        Expected::AssignmentOperator => "assignment operator".spec_bytes(),
        Expected::Identifier => "identifier".spec_bytes(),
        Expected::Expression => "expression".spec_bytes(),
    }
}

impl Fault {
    pub open spec fn wording(self) -> &'static str {
        match self {
            Fault::TypeMismatch => "type mismatch",
            Fault::DivideByZero => "division by zero",
            Fault::UndefinedRead => "read of an undefined variable",
            Fault::UndeclaredScript => "call of an undeclared script",
            Fault::InstanceOutOfRange => "instance id out of range",
            Fault::NegativeIndex => "negative array index",
            Fault::Native => "error in a native function",
        }
    }

    fn words(self) -> (r: &'static str)
        ensures
            r == self.wording(),
    {
        match self {
            Fault::TypeMismatch => "type mismatch",
            Fault::DivideByZero => "division by zero",
            Fault::UndefinedRead => "read of an undefined variable",
            Fault::UndeclaredScript => "call of an undeclared script",
            Fault::InstanceOutOfRange => "instance id out of range",
            Fault::NegativeIndex => "negative array index",
            Fault::Native => "error in a native function",
        }
    }
}

impl Message {
    /// What a message reads as.
    pub open spec fn spec_text(self, names: Seq<Seq<u8>>) -> Seq<u8> {
        match self {
            Message::Unexpected(found, expected) => "unexpected ".spec_bytes() + found.spec_text(
                names,
            ) + "; expected ".spec_bytes() + expected_text(expected, names),
            Message::InvalidNumber => "invalid numeric literal".spec_bytes(),
            Message::InvalidInteger => "invalid integer literal".spec_bytes(),
            Message::Runtime(fault) => fault.wording().spec_bytes(),
        }
    }

    /// What the message reads as, with the names that `interner` holds.
    pub fn text(self, interner: &Interner) -> (r: Vec<u8>)
        ensures
            r@ == self.spec_text(interner@),
    {
        let mut r: Vec<u8> = Vec::new();
        match self {
            Message::Unexpected(found, expected) => {
                push_str(&mut r, "unexpected ");
                assert(r@ =~= "unexpected ".spec_bytes());
                append(&mut r, found.text(interner).as_slice());
                push_str(&mut r, "; expected ");
                match expected {
                    Expected::Token(t) => {
                        append(&mut r, t.text(interner).as_slice());
                    },
                    Expected::Either(a, b) => {
                        let mut e = a.text(interner);
                        push_str(&mut e, " or ");
                        append(&mut e, b.text(interner).as_slice());
                        append(&mut r, e.as_slice());
                    },
                    Expected::AssignmentOperator => {
                        push_str(&mut r, "assignment operator");
                    },
                    Expected::Identifier => {
                        push_str(&mut r, "identifier");
                    },
                    Expected::Expression => {
                        push_str(&mut r, "expression");
                    },
                }
            },
            Message::InvalidNumber => {
                push_str(&mut r, "invalid numeric literal");
                assert(r@ =~= "invalid numeric literal".spec_bytes());
            },
            Message::InvalidInteger => {
                push_str(&mut r, "invalid integer literal");
                assert(r@ =~= "invalid integer literal".spec_bytes());
            },
            Message::Runtime(fault) => {
                push_str(&mut r, fault.words());
                assert(r@ =~= fault.wording().spec_bytes());
            },
        }
        r
    }
}

impl FunctionDisplay {
    /// How the function is named: `script <name>`, or as an event.
    pub open spec fn spec_text(self, names: Seq<Seq<u8>>) -> Seq<u8> {
        match self {
            FunctionDisplay::Event { object, event_type, event_kind } => event_text(
                object,
                event_type,
                event_kind,
                names,
            ),
            FunctionDisplay::Script { script } => "script ".spec_bytes() + name_of(names, script),
        }
    }

    /// How the function is named, with the names that `interner` holds.
    pub fn text(&self, interner: &Interner) -> (r: Vec<u8>)
        ensures
            r@ == self.spec_text(interner@),
    {
        match *self {
            FunctionDisplay::Event { object, event_type, event_kind } => display_event(
                object,
                event_type,
                event_kind,
                interner,
            ),
            FunctionDisplay::Script { script } => {
                let mut r: Vec<u8> = Vec::new();
                push_str(&mut r, "script ");
                assert(r@ =~= "script ".spec_bytes());
                append(&mut r, symbol_text(interner, script).as_slice());
                r
            },
        }
    }
}

impl EventDisplay {
    /// How the kind of an event is shown. No event type has names for its
    /// kinds, so it is shown by its number.
    pub fn from_debug(debug: &crate::vm::Debug, event_type: u32, event_kind: i32) -> (r: EventDisplay)
        ensures
            r == EventDisplay::Id(event_kind),
    {
        EventDisplay::Id(event_kind)
    }
}

/// The line that a diagnostic writes, with the line feed that ends it.
pub open spec fn diagnostic(
    name: FunctionDisplay,
    names: Seq<Seq<u8>>,
    position: Position,
    message: Message,
) -> Seq<u8> {
    let head = "error in ".spec_bytes() + name.spec_text(names);
    let with_action = match position.action {
        Some(action) => head + ", action ".spec_bytes() + decimal(action as nat),
        None => head,
    };
    let with_argument = match (position.argument, position.line) {
        (Some(argument), None) => with_action + ", argument ".spec_bytes() + decimal(
            argument as nat,
        ),
        _ => with_action,
    };
    let with_line = match position.line {
        Some(line) => with_argument + ":".spec_bytes() + decimal(line as nat),
        None => with_argument,
    };
    let with_column = match position.column {
        Some(column) => with_line + ":".spec_bytes() + decimal(column as nat),
        None => with_line,
    };
    with_column + ": ".spec_bytes() + message.spec_text(names) + "\n".spec_bytes()
}

/// Appends the bytes of a string.
pub fn push_str(out: &mut Vec<u8>, s: &str)
    ensures
        final(out)@ == old(out)@ + s.spec_bytes(),
{
    append(out, s.as_bytes());
}

/// Appends the digits of a number.
pub fn push_decimal(out: &mut Vec<u8>, n: u64)
    ensures
        final(out)@ == old(out)@ + decimal(n as nat),
    decreases n,
{
    if n >= 10 {
        push_decimal(out, n / 10);
    }
    out.push(48 + (n % 10) as u8);
    assert(out@ =~= old(out)@ + decimal(n as nat));
}

/// The name of an event: `event <type>(<kind>) for object <name>`.
pub fn display_event(
    object: Symbol,
    event_type: u32,
    event_kind: EventDisplay,
    interner: &Interner,
) -> (r: Vec<u8>)
    ensures
        r@ == event_text(object, event_type, event_kind, interner@),
{
    let mut r: Vec<u8> = Vec::new();
    push_str(&mut r, "event ");
    assert(r@ =~= "event ".spec_bytes());
    push_decimal(&mut r, event_type as u64);
    push_str(&mut r, "(");
    match event_kind {
        EventDisplay::Id(id) => {
            let mut kind: Vec<u8> = Vec::new();
            if id < 0 {
                push_str(&mut kind, "-");
                assert(kind@ =~= "-".spec_bytes());
                push_decimal(&mut kind, (-(id as i64)) as u64);
            } else {
                push_decimal(&mut kind, id as u64);
                assert(kind@ =~= decimal(id as nat));
            }
            append(&mut r, kind.as_slice());
        },
        EventDisplay::Name(name) => {
            append(&mut r, symbol_text(interner, name).as_slice());
        },
    }
    push_str(&mut r, ")");
    push_str(&mut r, " for object ");
    append(&mut r, symbol_text(interner, object).as_slice());
    r
}

/// Counts the diagnostics of one function and writes their lines.
pub struct ErrorPrinter<'a> {
    pub name: FunctionDisplay,
    pub lines: &'a Lines,
    /// How many diagnostics were reported; it stops at the largest `u32`.
    pub count: u32,
    /// The lines written so far.
    pub write: Vec<u8>,
    /// The diagnostics reported so far.
    pub reports: Ghost<Seq<Report>>,
}

/// One more than a count, unless it is the largest `u32`.
pub open spec fn counted(count: u32) -> u32 {
    if count < u32::MAX {
        (count + 1) as u32
    } else {
        count
    }
}

impl<'a> ErrorPrinter<'a> {
    /// A printer that has reported nothing yet and writes after `write`.
    pub fn new(name: FunctionDisplay, lines: &'a Lines, write: Vec<u8>) -> (r: ErrorPrinter<'a>)
        ensures
            r.name == name,
            r.lines == lines,
            r.count == 0,
            r.write@ == write@,
            r.reports@ == Seq::<Report>::empty(),
    {
        ErrorPrinter { name, lines, count: 0, write, reports: Ghost(Seq::empty()) }
    }

    /// A printer for a function that was compiled, named as `debug` names
    /// it and with the lines of its source.
    pub fn from_debug(debug: &'a crate::vm::Debug, function: Function, write: Vec<u8>) -> (r: ErrorPrinter<
        'a,
    >)
        requires
            debug.knows(function),
        ensures
            r.name == (match function {
                Function::Event { object_index, event_type, event_kind } => FunctionDisplay::Event {
                    object: debug.objects@[object_index as int],
                    event_type,
                    event_kind: EventDisplay::Id(event_kind),
                },
                Function::Script { id } => FunctionDisplay::Script {
                    script: debug.scripts@[id as int],
                },
            }),
            *r.lines == debug.locations_of(function).lines,
            r.count == 0,
            r.write@ == write@,
            r.reports@ == Seq::<Report>::empty(),
    {
        let name = match function {
            Function::Event { object_index, event_type, event_kind } => {
                let object = debug.objects[object_index as usize];
                let event_kind = EventDisplay::from_debug(debug, event_type, event_kind);
                FunctionDisplay::Event { object, event_type, event_kind }
            },
            Function::Script { id } => {
                let script = debug.scripts[id as usize];
                FunctionDisplay::Script { script }
            },
        };
        let entry = debug.find(function);
        let lines = &debug.locations[entry.unwrap()].1.lines;
        ErrorPrinter::new(name, lines, write)
    }

    /// Reports a diagnostic at the low end of `span`: writes its line and
    /// counts it.
    pub fn error(&mut self, interner: &Interner, span: Span, message: Message)
        requires
            old(self).lines.wf(),
        ensures
            final(self).name == old(self).name,
            final(self).lines == old(self).lines,
            final(self).count == counted(old(self).count),
            final(self).reports@ == old(self).reports@.push(Report { span, message }),
            final(self).write@ == old(self).write@ + diagnostic(
                old(self).name,
                interner@,
                old(self).lines.position(span.low),
                message,
            ),
    {
        let position = self.lines.get_position(span.low);
        let mut line: Vec<u8> = Vec::new();
        push_str(&mut line, "error in ");
        assert(line@ =~= "error in ".spec_bytes());
        append(&mut line, self.name.text(interner).as_slice());
        if let Some(action) = position.action {
            push_str(&mut line, ", action ");
            push_decimal(&mut line, action as u64);
        }
        match (position.argument, position.line) {
            (Some(argument), None) => {
                push_str(&mut line, ", argument ");
                push_decimal(&mut line, argument as u64);
            },
            _ => {},
        }
        if let Some(number) = position.line {
            push_str(&mut line, ":");
            push_decimal(&mut line, number as u64);
        }
        if let Some(column) = position.column {
            push_str(&mut line, ":");
            push_decimal(&mut line, column as u64);
        }
        push_str(&mut line, ": ");
        append(&mut line, message.text(interner).as_slice());
        push_str(&mut line, "\n");
        append(&mut self.write, line.as_slice());
        if self.count < u32::MAX {
            self.count = self.count + 1;
        }
        proof {
            self.reports@ = self.reports@.push(Report { span, message });
        }
    }
}

impl Expected {
    /// Whether the table of names holds the handles of the tokens.
    pub open spec fn known(self, names: Seq<Seq<u8>>) -> bool {
        match self {
            Expected::Token(t) => t.known(names),
            Expected::Either(a, b) => a.known(names) && b.known(names),
            _ => true,
        }
    }
}

impl Message {
    /// Whether the table of names holds the handles of the tokens.
    pub open spec fn known(self, names: Seq<Seq<u8>>) -> bool {
        match self {
            Message::Unexpected(found, expected) => found.known(names) && expected.known(names),
            _ => true,
        }
    }
}

impl FunctionDisplay {
    /// Whether the table of names holds the handles of the names.
    pub open spec fn known(self, names: Seq<Seq<u8>>) -> bool {
        match self {
            FunctionDisplay::Event { object, event_type, event_kind } => object.index < names.len()
                && (event_kind matches EventDisplay::Name(name) ==> name.index < names.len()),
            FunctionDisplay::Script { script } => script.index < names.len(),
        }
    }
}

/// The lines of the diagnostics `from` up to `to` of a list, as a printer
/// of the function `name` writes them with the table `names` and the line
/// index of the given parts.
pub open spec fn rendered(
    name: FunctionDisplay,
    parts: Seq<Part>,
    length: int,
    names: Seq<Seq<u8>>,
    reports: Seq<Report>,
    from: int,
    to: int,
) -> Seq<u8>
    decreases to - from,
{
    if from < 0 || to <= from || to > reports.len() {
        Seq::empty()
    } else {
        rendered(name, parts, length, names, reports, from, to - 1) + diagnostic(
            name,
            names,
            locate(parts, length, reports[to - 1].span.low as int),
            reports[to - 1].message,
        )
    }
}

/// Whether the table of names holds the handles of the tokens of the
/// diagnostics `from` up to `to`.
pub open spec fn all_known(reports: Seq<Report>, names: Seq<Seq<u8>>, from: int, to: int) -> bool {
    forall|i: int| from <= i < to && 0 <= i < reports.len() ==> (#[trigger] reports[i]).message.known(names)
}

/// Handles that a table of names holds, it holds in every table that
/// begins with it, for the same names.
pub proof fn lemma_known_extends(
    name: FunctionDisplay,
    message: Message,
    position: Position,
    earlier: Seq<Seq<u8>>,
    later: Seq<Seq<u8>>,
)
    requires
        extends(later, earlier),
        name.known(earlier),
        message.known(earlier),
    ensures
        name.known(later),
        message.known(later),
        diagnostic(name, later, position, message) == diagnostic(name, earlier, position, message),
{
    assert(name.spec_text(later) == name.spec_text(earlier));
    assert(message.spec_text(later) == message.spec_text(earlier));
}

/// The lines of diagnostics are the same with every table of names that
/// begins with one that holds the handles of their tokens.
pub proof fn lemma_rendered_extends(
    name: FunctionDisplay,
    parts: Seq<Part>,
    length: int,
    earlier: Seq<Seq<u8>>,
    later: Seq<Seq<u8>>,
    reports: Seq<Report>,
    from: int,
    to: int,
)
    requires
        extends(later, earlier),
        name.known(earlier),
        all_known(reports, earlier, from, to),
    ensures
        all_known(reports, later, from, to),
        rendered(name, parts, length, later, reports, from, to) == rendered(
            name,
            parts,
            length,
            earlier,
            reports,
            from,
            to,
        ),
    decreases to - from,
{
    assert forall|i: int| from <= i < to && 0 <= i < reports.len() implies (
    #[trigger] reports[i]).message.known(later) by {
        lemma_known_extends(
            name,
            reports[i].message,
            Position { action: None, argument: None, line: None, column: None },
            earlier,
            later,
        );
    }
    if !(from < 0 || to <= from || to > reports.len()) {
        lemma_rendered_extends(name, parts, length, earlier, later, reports, from, to - 1);
        lemma_known_extends(
            name,
            reports[to - 1].message,
            locate(parts, length, reports[to - 1].span.low as int),
            earlier,
            later,
        );
    }
}

/// The lines of diagnostics that follow one another are the lines of the
/// first and the lines of the rest.
pub proof fn lemma_rendered_joins(
    name: FunctionDisplay,
    parts: Seq<Part>,
    length: int,
    names: Seq<Seq<u8>>,
    reports: Seq<Report>,
    from: int,
    mid: int,
    to: int,
)
    requires
        0 <= from <= mid <= to <= reports.len(),
    ensures
        rendered(name, parts, length, names, reports, from, to) == rendered(
            name,
            parts,
            length,
            names,
            reports,
            from,
            mid,
        ) + rendered(name, parts, length, names, reports, mid, to),
    decreases to - mid,
{
    if mid < to {
        lemma_rendered_joins(name, parts, length, names, reports, from, mid, to - 1);
        assert(rendered(name, parts, length, names, reports, from, to) =~= rendered(
            name,
            parts,
            length,
            names,
            reports,
            from,
            mid,
        ) + rendered(name, parts, length, names, reports, mid, to));
    } else {
        assert(rendered(name, parts, length, names, reports, from, to) =~= rendered(
            name,
            parts,
            length,
            names,
            reports,
            from,
            mid,
        ) + rendered(name, parts, length, names, reports, mid, to));
    }
}

/// The lines of diagnostics do not depend on the diagnostics behind them.
pub proof fn lemma_rendered_prefix(
    name: FunctionDisplay,
    parts: Seq<Part>,
    length: int,
    names: Seq<Seq<u8>>,
    a: Seq<Report>,
    b: Seq<Report>,
    from: int,
    to: int,
)
    requires
        0 <= from <= to <= a.len(),
        to <= b.len(),
        forall|i: int| from <= i < to ==> a[i] == b[i],
    ensures
        rendered(name, parts, length, names, a, from, to) == rendered(
            name,
            parts,
            length,
            names,
            b,
            from,
            to,
        ),
    decreases to - from,
{
    if from < to {
        lemma_rendered_prefix(name, parts, length, names, a, b, from, to - 1);
    }
}

} // verus!
