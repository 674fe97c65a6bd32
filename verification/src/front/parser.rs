//! The parser: from the tokens of a source text to its syntax tree.
//!
//! What each function builds is stated by the function of the same
//! construct in `grammar`, applied to the tokens of the source and to the
//! index of the token at which the parser stands; the parser holds both as
//! ghost values.

use vstd::prelude::*;
use vstd::slice::slice_subrange;
use crate::diagnostics::{
    all_known, lemma_rendered_extends, lemma_rendered_prefix, rendered, ErrorPrinter, Expected,
    Message, Report,
};
use crate::front::ast::{
    expr_tree, expr_trees, leaf, lemma_expr_respan, lemma_expr_tree, lemma_expr_trees_push,
    lemma_stmt_tree, lemma_stmt_trees_push, name_trees, stmt_tree, stmt_trees, well_spanned,
    Binary, Call, Declare, Expr, Jump, Kind, Number, Op, Stmt, Tree, Unary, Value,
};
use crate::front::grammar::{
    arguments, assign_or_invoke, assignment, at, binary, binary_of, block_after, case_after, climb,
    construct, declare_after, declared, do_after, ending, ends_items, expect, expression, finish,
    for_after, hex_digit, hex_value, if_after, infix, is_decimal, is_name, is_sync, items,
    lemma_before_end, lemma_statement_unfold, literal, prefix, program, remaining, repeat_after,
    respan, return_after, semicolons, skipped, sp, started, statement, step, switch_after, tok,
    unary, unexpected, while_after, Infix, Log, Parsed, POSTFIX,
};
use crate::front::sound::{
    lemma_expression, lemma_order, lemma_program, lemma_rising, lemma_token, rising,
};
use crate::front::lexer::{
    lemma_read, lemma_stream, lemma_stream_end, lemma_stream_ordered, ordered, read, scan_run,
    state_after, stream, Class, DOLLAR, DOT, Lexeme, Lexer,
};
use crate::front::token::{BinOp, Delim, Token};
use crate::front::Span;
use crate::symbol::{extends, Keyword, Symbol};

verus! {

/// The tokens from index `k` on; the last token alone where `k` is past it.
pub open spec fn rest(ts: Seq<Lexeme>, k: int) -> Seq<Lexeme> {
    if 0 <= k < ts.len() {
        ts.subrange(k, ts.len() as int)
    } else {
        seq![ts.last()]
    }
}

/// The token that the lexer yields next is the one at index `k`, and the
/// tokens to come after it are those from `k + 1` on.
pub proof fn lemma_advance(
    s: Seq<u8>,
    offset: int,
    position: int,
    names: Seq<Seq<u8>>,
    ts: Seq<Lexeme>,
    k: int,
)
    requires
        0 <= position <= s.len(),
        0 <= offset,
        offset + s.len() <= usize::MAX,
        crate::symbol::distinct(names),
        ordered(ts),
        0 <= k,
        stream(s, offset, position, names) == rest(ts, k),
    ensures
        ({
            let r = read(s, offset, position, names);
            &&& at(ts, k) == Lexeme { token: r.token, span: r.span, text: r.text }
            &&& stream(s, offset, r.next, r.names) == rest(ts, k + 1)
        }),
{
    reveal(at);
    let r = read(s, offset, position, names);
    let first = Lexeme { token: r.token, span: r.span, text: r.text };
    lemma_read(s, offset, position, names);
    lemma_stream(s, offset, position, names);
    lemma_stream_ordered(s, offset, r.next, r.names);
    let now = stream(s, offset, position, names);
    let then = stream(s, offset, r.next, r.names);
    if r.token != Token::Eof {
        assert(now == seq![first] + then);
        assert(now.len() >= 2);
        assert(k < ts.len() - 1);
        assert(now[0] == ts[k]);
        assert(now.len() == ts.len() - k);
        assert(then.len() == now.len() - 1);
        assert forall|i: int| 0 <= i < then.len() implies then[i] == ts[k + 1 + i] by {
            assert(now[i + 1] == then[i]);
            assert(now[i + 1] == ts[k + i + 1]);
        }
        assert(then =~= ts.subrange(k + 1, ts.len() as int));
    } else {
        lemma_stream_end(s, offset, position, names);
        assert(now == seq![first]);
        assert(now[0] == first);
        assert(k >= ts.len() - 1);
        assert(rest(ts, k)[0] == ts.last());
        assert(rest(ts, k + 1) =~= seq![ts.last()]);
        assert(first.text =~= Seq::<u8>::empty());
    }
}

/// The value of a hexadecimal digit.
pub fn hex_digit_value(b: u8) -> (r: Option<u8>)
    ensures
        match r {
            Some(d) => hex_digit(b) == Some(d as nat) && d < 16,
            None => hex_digit(b).is_none(),
        },
{
    if 48 <= b && b <= 57 {
        Some(b - 48)
    } else if 65 <= b && b <= 70 {
        Some(b - 55)
    } else if 97 <= b && b <= 102 {
        Some(b - 87)
    } else {
        None
    }
}

/// Digits stand for a number only if any shorter beginning of them does,
/// and for one that is not less.
pub proof fn lemma_hex_prefix(digits: Seq<u8>, n: int)
    requires
        1 <= n <= digits.len(),
        hex_value(digits).is_some(),
    ensures
        hex_value(digits.subrange(0, n)).is_some(),
        hex_value(digits.subrange(0, n)).unwrap() <= hex_value(digits).unwrap(),
    decreases digits.len(),
{
    if n == digits.len() {
        assert(digits.subrange(0, n) =~= digits);
    } else {
        lemma_hex_prefix(digits.drop_last(), n);
        assert(digits.drop_last().subrange(0, n) =~= digits.subrange(0, n));
    }
}

/// The number that hexadecimal digits stand for, if it fits 64 bits.
pub fn parse_hex(digits: &[u8]) -> (r: Option<u64>)
    ensures
        match r {
            Some(v) => hex_value(digits@) == Some(v as nat),
            None => hex_value(digits@).is_none() || hex_value(digits@).unwrap() > u64::MAX,
        },
{
    if digits.len() == 0 {
        return None;
    }
    let mut value: u64 = 0;
    let mut i: usize = 0;
    while i < digits.len()
        invariant
            i <= digits@.len(),
            digits@.len() > 0,
            i > 0 ==> hex_value(digits@.subrange(0, i as int)) == Some(value as nat),
            i == 0 ==> value == 0,
        decreases digits@.len() - i,
    {
        let ghost before = digits@.subrange(0, i as int);
        let ghost after = digits@.subrange(0, i + 1);
        proof {
            assert(after.drop_last() =~= before);
            assert(after.last() == digits@[i as int]);
            if hex_value(digits@).is_some() {
                lemma_hex_prefix(digits@, i + 1);
            }
        }
        match hex_digit_value(digits[i]) {
            None => {
                return None;
            },
            Some(d) => {
                if value > (u64::MAX - d as u64) / 16 {
                    return None;
                }
                value = value * 16 + d as u64;
            },
        }
        i = i + 1;
    }
    assert(digits@.subrange(0, i as int) =~= digits@);
    Some(value)
}

/// Whether a text is digits, or digits, a point and digits.
pub fn check_decimal(text: &[u8]) -> (r: bool)
    ensures
        r == is_decimal(text@),
{
    let n = scan_run(text, 0, Class::Digit);
    if n == 0 {
        false
    } else if n == text.len() {
        true
    } else if text[n] == DOT {
        let m = scan_run(text, n + 1, Class::Digit);
        m >= 1 && n + 1 + m == text.len()
    } else {
        false
    }
}

/// What a numeric literal with the given text stands for.
pub fn decode_number(text: &[u8], symbol: Symbol) -> (r: Result<Number, Message>)
    ensures
        r == literal(text@, symbol),
        r matches Err(message) ==> message == Message::InvalidInteger || message
            == Message::InvalidNumber,
{
    if text.len() > 0 && text[0] == DOLLAR {
        let digits = slice_subrange(text, 1, text.len());
        assert(digits@ =~= text@.skip(1));
        match parse_hex(digits) {
            Some(v) => Ok(Number::Integer(v)),
            None => Err(Message::InvalidInteger),
        }
    } else if check_decimal(text) {
        Ok(Number::Decimal(symbol))
    } else {
        Err(Message::InvalidNumber)
    }
}

impl Infix {
    /// What a token means between or behind operands, and how tightly it
    /// binds: a field, an index and a call at level 7, the binary operators
    /// from 6 down to 1.
    pub fn from_token(token: Token) -> (r: Option<(Infix, usize)>)
        ensures
            match r {
                Some((op, level)) => infix(token) == Some((op, level as nat)),
                None => infix(token).is_none(),
            },
    {
        let op = match token {
            Token::Dot => Infix::Field,
            Token::OpenDelim(Delim::Bracket) => Infix::Index,
            Token::OpenDelim(Delim::Paren) => Infix::Call,
            Token::Lt => Infix::Binary(Binary::Lt),
            Token::Le => Infix::Binary(Binary::Le),
            Token::Eq => Infix::Binary(Binary::Eq),
            Token::ColonEq => Infix::Binary(Binary::Eq),
            Token::EqEq => Infix::Binary(Binary::Eq),
            Token::Ne => Infix::Binary(Binary::Ne),
            Token::LtGt => Infix::Binary(Binary::Ne),
            Token::Ge => Infix::Binary(Binary::Ge),
            Token::Gt => Infix::Binary(Binary::Gt),
            Token::BinOp(op) => Infix::Binary(Binary::Op(from_binop(op))),
            Token::Keyword(Keyword::Div) => Infix::Binary(Binary::Div),
            Token::Keyword(Keyword::Mod) => Infix::Binary(Binary::Mod),
            Token::And => Infix::Binary(Binary::And),
            Token::Keyword(Keyword::And) => Infix::Binary(Binary::And),
            Token::Or => Infix::Binary(Binary::Or),
            Token::Keyword(Keyword::Or) => Infix::Binary(Binary::Or),
            Token::Xor => Infix::Binary(Binary::Xor),
            Token::Keyword(Keyword::Xor) => Infix::Binary(Binary::Xor),
            Token::Shl => Infix::Binary(Binary::ShiftLeft),
            Token::Shr => Infix::Binary(Binary::ShiftRight),
            _ => {
                return None;
            },
        };
        let level: usize = match op {
            Infix::Field => POSTFIX,
            Infix::Index => POSTFIX,
            Infix::Call => POSTFIX,
            Infix::Binary(op) => match op {
                Binary::Op(Op::Multiply) | Binary::Op(Op::Divide) | Binary::Div | Binary::Mod => 6,
                Binary::Op(Op::Add) | Binary::Op(Op::Subtract) => 5,
                Binary::ShiftLeft | Binary::ShiftRight => 4,
                Binary::Op(Op::BitAnd) | Binary::Op(Op::BitXor) | Binary::Op(Op::BitOr) => 3,
                Binary::Lt | Binary::Le | Binary::Eq | Binary::Ne | Binary::Ge | Binary::Gt => 2,
                Binary::And | Binary::Or | Binary::Xor => 1,
            },
        };
        Some((op, level))
    }
}

/// The operator of the syntax tree that an operator token stands for.
pub fn from_binop(op: BinOp) -> (r: Op)
    ensures
        r == binary_of(op),
{
    match op {
        BinOp::Plus => Op::Add,
        BinOp::Minus => Op::Subtract,
        BinOp::Star => Op::Multiply,
        BinOp::Slash => Op::Divide,
        BinOp::Ampersand => Op::BitAnd,
        BinOp::Pipe => Op::BitOr,
        BinOp::Caret => Op::BitXor,
    }
}

/// Whether error recovery stops before the token.
pub fn stops_recovery(token: Token) -> (r: bool)
    ensures
        r == is_sync(token),
{
    match token {
        Token::Eof => true,
        Token::CloseDelim(Delim::Brace) => true,
        Token::Ident(_) => true,
        Token::OpenDelim(Delim::Paren) => true,
        Token::OpenDelim(Delim::Brace) => true,
        Token::Keyword(k) => match k {
            Keyword::End | Keyword::Self_ | Keyword::Other | Keyword::All | Keyword::NoOne
            | Keyword::Global | Keyword::Local | Keyword::Var | Keyword::GlobalVar | Keyword::Begin
            | Keyword::If | Keyword::Repeat | Keyword::While | Keyword::With | Keyword::Do
            | Keyword::For | Keyword::Break | Keyword::Continue | Keyword::Exit | Keyword::Switch
            | Keyword::Case | Keyword::Default | Keyword::Return => true,
            _ => false,
        },
        _ => false,
    }
}

/// The name that an expression is, if it is a bare name.
pub fn callee(e: &Expr) -> (r: Option<Symbol>)
    ensures
        r == (match *e {
            Expr::Value(Value::Ident(name)) => Some(name),
            _ => None,
        }),
{
    match e {
        Expr::Value(Value::Ident(name)) => Some(*name),
        _ => None,
    }
}

/// Whether an expression is a bare name or a field.
pub fn indexable(e: &Expr) -> (r: bool)
    ensures
        r == (*e is Field || *e matches Expr::Value(Value::Ident(_))),
{
    match e {
        Expr::Value(Value::Ident(_)) => true,
        Expr::Field(_, _) => true,
        _ => false,
    }
}

/// What the model of an expression tells of the expression: whether it is
/// a bare name, a field, a call, or missing.
pub proof fn lemma_expr_kind(e: Expr, span: Span)
    ensures
        expr_tree(e, span).span == span,
        expr_tree(e, span).kind is Field <==> e is Field,
        expr_tree(e, span).kind is Call <==> e is Call,
        expr_tree(e, span).kind is Missing <==> e is Error,
        forall|name: Symbol|
            expr_tree(e, span).kind == Kind::Value(Value::Ident(name)) <==> e == Expr::Value(
                Value::Ident(name),
            ),
        e matches Expr::Value(v) ==> expr_tree(e, span) == leaf(Kind::Value(v), span),
        e matches Expr::Call(call) ==> expr_tree(e, span).children == seq![
            leaf(Kind::Name(call.0.0), call.0.1),
        ] + expr_trees(call.1@),
{
    lemma_expr_tree(e, span);
}

/// Whether a keyword can stand where a name can.
pub fn names_value(k: Keyword) -> (r: bool)
    ensures
        r == is_name(k),
{
    match k {
        Keyword::True | Keyword::False | Keyword::Self_ | Keyword::Other | Keyword::All
        | Keyword::NoOne | Keyword::Global | Keyword::Local => true,
        _ => false,
    }
}

/// The prefix operator that a token stands for.
pub fn prefix_operator(token: Token) -> (r: Option<Unary>)
    ensures
        r == unary(token),
{
    match token {
        Token::BinOp(BinOp::Plus) => Some(Unary::Positive),
        Token::BinOp(BinOp::Minus) => Some(Unary::Negate),
        Token::Bang => Some(Unary::Invert),
        Token::Keyword(Keyword::Not) => Some(Unary::Invert),
        Token::Tilde => Some(Unary::BitInvert),
        _ => None,
    }
}

/// The operator of an assignment that a token stands for.
pub fn assignment_operator(token: Token) -> (r: Option<Option<Op>>)
    ensures
        r == assignment(token),
{
    match token {
        Token::Eq => Some(None),
        Token::ColonEq => Some(None),
        Token::BinOpEq(op) => Some(Some(from_binop(op))),
        _ => None,
    }
}

/// Whether a statement is one that could not be parsed.
pub fn is_error(s: &Stmt) -> (r: bool)
    ensures
        r == (*s is Error),
{
    match s {
        Stmt::Error(_) => true,
        _ => false,
    }
}

/// The model of a statement with another span is the model with its span
/// replaced.
pub proof fn lemma_stmt_respan(s: Stmt, a: Span, b: Span)
    ensures
        stmt_tree(s, b) == respan(stmt_tree(s, a), b),
        stmt_tree(s, a).kind is Invalid <==> s is Error,
        stmt_tree(s, a).kind is Invalid ==> stmt_tree(s, a).children.len() == 1 && stmt_tree(
            s,
            a,
        ).children[0].span == a,
        stmt_tree(s, a).span == a,
{
    lemma_stmt_tree(s, a);
    lemma_stmt_tree(s, b);
    match s {
        Stmt::Error(e) => {
            lemma_expr_respan(e, a, b);
            lemma_expr_tree(e, a);
        },
        _ => {},
    }
}

/// The parser of one source text. It takes the lexer and the error
/// printer, and gives both back with `into_parts`.
pub struct Parser<'s, 'f> {
    reader: Lexer<'s>,
    errors: ErrorPrinter<'f>,
    current: Token,
    span: Span,
    tokens: Ghost<Seq<Lexeme>>,
    cursor: Ghost<int>,
    origin: Ghost<(int, Seq<Seq<u8>>)>,
    base: Ghost<Seq<u8>>,
    start: Ghost<int>,
    initial: Ghost<Seq<Report>>,
}

impl<'s, 'f> Parser<'s, 'f> {
    /// The tokens of the source text, from the one at which the parser
    /// began, up to and with `Eof`.
    pub closed spec fn tokens(&self) -> Seq<Lexeme> {
        self.tokens@
    }

    /// Where the lexer stood, and what names its interner held, when the
    /// parser was made.
    pub closed spec fn origin(&self) -> (int, Seq<Seq<u8>>) {
        self.origin@
    }

    /// What the error printer had written when the parser was made.
    pub closed spec fn written_before(&self) -> Seq<u8> {
        self.base@
    }

    /// How many diagnostics the error printer had reported when the
    /// parser was made.
    pub closed spec fn reported_before(&self) -> int {
        self.start@
    }

    /// The diagnostics that the error printer had reported when the
    /// parser was made.
    pub closed spec fn reports_before(&self) -> Seq<Report> {
        self.initial@
    }

    /// The index of the token at which the parser stands.
    pub closed spec fn cursor(&self) -> int {
        self.cursor@
    }

    /// The diagnostics that the error printer has reported, and its count.
    pub closed spec fn log(&self) -> Log {
        Log { reports: self.errors.reports@, count: self.errors.count }
    }

    /// The lexer.
    pub closed spec fn reader(&self) -> Lexer<'s> {
        self.reader
    }

    /// The error printer.
    pub closed spec fn printer(&self) -> ErrorPrinter<'f> {
        self.errors
    }

    /// The lexer is about to yield the tokens that follow the current one,
    /// and its interner holds the text of a numeric literal that is the
    /// current token.
    #[verifier::opaque]
    pub closed spec fn linked(&self) -> bool {
        &&& self.reader.wf()
        &&& self.errors.lines.wf()
        &&& ordered(self.tokens@)
        &&& self.reader.upcoming() == rest(self.tokens@, self.cursor@ + 1)
        &&& self.cursor@ >= 0
        &&& (self.reader.position(), self.reader.names()) == state_after(
            self.reader.source(),
            self.reader.offset(),
            self.origin@.0,
            self.origin@.1,
            (self.cursor@ + 1) as nat,
        )
        &&& (self.current matches Token::Real(symbol) ==> symbol.index < self.reader.names().len()
            && self.reader.names()[symbol.index as int] == at(self.tokens@, self.cursor@).text)
        &&& 0 <= self.start@ <= self.errors.reports@.len()
        &&& self.initial@ == self.errors.reports@.subrange(0, self.start@)
        &&& extends(self.reader.names(), self.origin@.1)
        &&& self.current.known(self.reader.names())
        &&& self.errors.name.known(self.reader.names())
        &&& all_known(
            self.errors.reports@,
            self.reader.names(),
            self.start@,
            self.errors.reports@.len() as int,
        )
        &&& self.errors.write@ == self.base@ + rendered(
            self.errors.name,
            self.errors.lines.parts(),
            self.errors.lines.length(),
            self.reader.names(),
            self.errors.reports@,
            self.start@,
            self.errors.reports@.len() as int,
        )
    }

    /// The parser holds the token at its index, and the lexer is about to
    /// yield those that follow.
    pub closed spec fn wf(&self) -> bool {
        &&& self.linked()
        &&& rising(self.tokens@)
        &&& self.cursor@ >= 0
        &&& tok(self.tokens@, self.cursor@) == self.current
        &&& sp(self.tokens@, self.cursor@) == self.span
        &&& (self.current != Token::Eof <==> self.cursor@ < self.tokens@.len() - 1)
    }

    /// The error printer names the same function and has the same lines,
    /// and the parser knows the same of what the printer did before the
    /// parser was made.
    pub open spec fn same_printer(&self, before: &Self) -> bool {
        &&& self.printer().name == before.printer().name
        &&& self.printer().lines == before.printer().lines
        &&& self.written_before() == before.written_before()
        &&& self.reported_before() == before.reported_before()
        &&& self.reports_before() == before.reports_before()
    }

    /// The parser has moved on by `used` tokens since it was `before`, and
    /// the log of its error printer is `log`.
    pub open spec fn yields(&self, before: &Self, used: nat, log: Log) -> bool {
        &&& self.wf()
        &&& self.tokens() == before.tokens()
        &&& self.cursor() == before.cursor() + used
        &&& self.log() == log
        &&& self.same_printer(before)
        &&& self.origin() == before.origin()
        &&& self.reader().source() == before.reader().source()
        &&& self.reader().offset() == before.reader().offset()
    }

    /// The parser has built the statement `r`, which is the tree `g.tree`,
    /// of `g.used` tokens, and the log of its error printer is `g.log`.
    pub open spec fn parsed_stmt(&self, before: &Self, r: (Stmt, Span), g: Parsed) -> bool {
        &&& self.yields(before, g.used, g.log)
        &&& stmt_tree(r.0, r.1) == g.tree
        &&& g.tree.span == r.1
    }

    /// The parser has built the expression `r`, which is the tree
    /// `g.tree`, of `g.used` tokens, and the log of its error printer is
    /// `g.log`.
    pub open spec fn parsed_expr(&self, before: &Self, r: (Expr, Span), g: Parsed) -> bool {
        &&& self.yields(before, g.used, g.log)
        &&& expr_tree(r.0, r.1) == g.tree
        &&& g.tree.span == r.1
    }

    /// A parser at the first token that `reader` yields.
    pub fn new(reader: Lexer<'s>, errors: ErrorPrinter<'f>) -> (parser: Parser<'s, 'f>)
        requires
            reader.wf(),
            errors.lines.wf(),
            errors.name.known(reader.names()),
        ensures
            parser.wf(),
            parser.tokens() == reader.upcoming(),
            parser.cursor() == 0,
            parser.printer() == errors,
            parser.written_before() == errors.write@,
            parser.reported_before() == errors.reports@.len(),
            parser.reports_before() == errors.reports@,
            parser.origin() == (reader.position(), reader.names()),
            parser.reader().source() == reader.source(),
            parser.reader().offset() == reader.offset(),
    {
        let mut reader = reader;
        let ghost tokens = reader.upcoming();
        proof {
            reveal(Parser::linked);
            reader.lemma_next();
            lemma_stream_ordered(
                reader.source(),
                reader.offset(),
                reader.position(),
                reader.names(),
            );
            assert(rest(tokens, 0) =~= tokens);
            lemma_rising(tokens);
            lemma_before_end(tokens, 0);
            reveal(at);
            lemma_advance(
                reader.source(),
                reader.offset(),
                reader.position(),
                reader.names(),
                tokens,
                0,
            );
            lemma_read(reader.source(), reader.offset(), reader.position(), reader.names());
        }
        let ghost origin = (reader.position(), reader.names());
        let (current, span) = reader.read_token();
        proof {
            reader.lemma_next();
            reveal_with_fuel(state_after, 2);
            assert(errors.write@ =~= errors.write@ + Seq::<u8>::empty());
            assert(errors.reports@ =~= errors.reports@.subrange(0, errors.reports@.len() as int));
        }
        Parser {
            reader,
            errors,
            current,
            span,
            tokens: Ghost(tokens),
            cursor: Ghost(0),
            origin: Ghost(origin),
            base: Ghost(errors.write@),
            start: Ghost(errors.reports@.len() as int),
            initial: Ghost(errors.reports@),
        }
    }

    /// What holds of a parser that is well formed: its tokens are those of
    /// a source text, and it stands at one of them.
    pub proof fn lemma_wf(&self)
        requires
            self.wf(),
        ensures
            rising(self.tokens()),
            self.cursor() >= 0,
            self.reader().wf(),
            self.printer().lines.wf(),
            self.log() == (Log { reports: self.printer().reports@, count: self.printer().count }),
    {
        reveal(Parser::linked);
    }

    /// Gives the lexer and the error printer back.
    pub fn into_parts(self) -> (r: (Lexer<'s>, ErrorPrinter<'f>))
        requires
            self.wf(),
        ensures
            r.0 == self.reader(),
            r.0.wf(),
            r.1 == self.printer(),
            r.0.names() == state_after(
                r.0.source(),
                r.0.offset(),
                self.origin().0,
                self.origin().1,
                (self.cursor() + 1) as nat,
            ).1,
            extends(r.0.names(), self.origin().1),
            r.1.name.known(r.0.names()),
            0 <= self.reported_before() <= r.1.reports@.len(),
            r.1.reports@.subrange(0, self.reported_before()) == self.reports_before(),
            all_known(
                r.1.reports@,
                r.0.names(),
                self.reported_before(),
                r.1.reports@.len() as int,
            ),
            r.1.write@ == self.written_before() + rendered(
                r.1.name,
                r.1.lines.parts(),
                r.1.lines.length(),
                r.0.names(),
                r.1.reports@,
                self.reported_before(),
                r.1.reports@.len() as int,
            ),
    {
        proof {
            reveal(Parser::linked);
        }
        (self.reader, self.errors)
    }

    /// Moves on to the next token and gives the one that was current.
    fn advance_token(&mut self) -> (r: (Token, Span))
        requires
            old(self).wf(),
        ensures
            final(self).yields(old(self), 1, old(self).log()),
            r.0 == tok(old(self).tokens(), old(self).cursor()),
            r.1 == sp(old(self).tokens(), old(self).cursor()),
    {
        proof {
            reveal(Parser::linked);
            reveal(at);
            lemma_before_end(self.tokens@, self.cursor@ + 1);
            self.reader.lemma_next();
            lemma_advance(
                self.reader.source(),
                self.reader.offset(),
                self.reader.position(),
                self.reader.names(),
                self.tokens@,
                self.cursor@ + 1,
            );
            lemma_read(
                self.reader.source(),
                self.reader.offset(),
                self.reader.position(),
                self.reader.names(),
            );
        }
        let ghost earlier = self.reader.names();
        let (token, span) = self.reader.read_token();
        proof {
            self.reader.lemma_next();
            lemma_rendered_extends(
                self.errors.name,
                self.errors.lines.parts(),
                self.errors.lines.length(),
                earlier,
                self.reader.names(),
                self.errors.reports@,
                self.start@,
                self.errors.reports@.len() as int,
            );
        }
        let before = (self.current, self.span);
        self.current = token;
        self.span = span;
        proof {
            self.cursor@ = self.cursor@ + 1;
        }
        before
    }

    /// Reports a diagnostic.
    fn report(&mut self, span: Span, message: Message)
        requires
            old(self).wf(),
            message.known(old(self).reader().names()),
        ensures
            final(self).yields(old(self), 0, old(self).log().add(Report { span, message })),
    {
        proof {
            reveal(Parser::linked);
        }
        let ghost reports = self.errors.reports@;
        self.errors.error(self.reader.interner(), span, message);
        proof {
            let after = self.errors.reports@;
            lemma_rendered_prefix(
                self.errors.name,
                self.errors.lines.parts(),
                self.errors.lines.length(),
                self.reader.names(),
                reports,
                after,
                self.start@,
                reports.len() as int,
            );
            assert(self.errors.write@ =~= self.base@ + rendered(
                self.errors.name,
                self.errors.lines.parts(),
                self.errors.lines.length(),
                self.reader.names(),
                after,
                self.start@,
                after.len() as int,
            ));
            assert forall|i: int| self.start@ <= i < after.len() implies (
            #[trigger] after[i]).message.known(self.reader.names()) by {
                if i < reports.len() {
                    assert(after[i] == reports[i]);
                }
            }
            assert(after.subrange(0, self.start@) =~= reports.subrange(0, self.start@));
        }
    }

    /// Reports that the current token is not what was expected.
    fn unexpected(&mut self, expected: Expected)
        requires
            old(self).wf(),
            expected.known(Seq::empty()),
        ensures
            final(self).yields(
                old(self),
                0,
                old(self).log().add(unexpected(old(self).tokens(), old(self).cursor(), expected)),
            ),
    {
        proof {
            reveal(Parser::linked);
        }
        self.report(self.span, Message::Unexpected(self.current, expected));
    }

    /// Takes the current token if it is `token`; reports it if it is not.
    fn expect(&mut self, token: Token) -> (r: bool)
        requires
            old(self).wf(),
            token.known(Seq::empty()),
        ensures
            r == (tok(old(self).tokens(), old(self).cursor()) == token),
            final(self).yields(
                old(self),
                expect(old(self).tokens(), old(self).cursor(), token, old(self).log()).0,
                expect(old(self).tokens(), old(self).cursor(), token, old(self).log()).1,
            ),
    {
        if self.current == token {
            self.advance_token();
            true
        } else {
            self.unexpected(Expected::Token(token));
            false
        }
    }

    /// Reports the current token unless it is the end of the source.
    pub fn expect_end(&mut self)
        requires
            old(self).wf(),
        ensures
            final(self).yields(
                old(self),
                0,
                if tok(old(self).tokens(), old(self).cursor()) == Token::Eof {
                    old(self).log()
                } else {
                    old(self).log().add(
                        unexpected(
                            old(self).tokens(),
                            old(self).cursor(),
                            Expected::Token(Token::Eof),
                        ),
                    )
                },
            ),
    {
        if self.current != Token::Eof {
            self.unexpected(Expected::Token(Token::Eof));
        }
    }

    /// Skips to where a statement may begin: behind the next semicolon, or
    /// before a token at which a statement may begin or a block may end.
    fn skip_to_statement(&mut self)
        requires
            old(self).wf(),
        ensures
            final(self).yields(
                old(self),
                skipped(old(self).tokens(), old(self).cursor()),
                old(self).log(),
            ),
    {
        loop
            invariant_except_break
                self.wf(),
                self.tokens() == old(self).tokens(),
                self.cursor() >= old(self).cursor(),
                skipped(old(self).tokens(), old(self).cursor()) == (self.cursor() - old(
                    self,
                ).cursor()) + skipped(self.tokens(), self.cursor()),
                self.log() == old(self).log(),
                self.same_printer(old(self)),
                self.origin() == old(self).origin(),
                self.reader().source() == old(self).reader().source(),
                self.reader().offset() == old(self).reader().offset(),
            ensures
                self.yields(old(self), skipped(old(self).tokens(), old(self).cursor()), old(self).log()),
            decreases remaining(self.tokens(), self.cursor()),
        {
            if self.current == Token::Semicolon {
                self.advance_token();
                break ;
            } else if stops_recovery(self.current) {
                break ;
            } else {
                self.advance_token();
            }
        }
    }

    /// An expression at the level of a field, an index or a call.
    fn parse_term(&mut self) -> (r: (Expr, Span))
        requires
            old(self).wf(),
        ensures
            final(self).parsed_expr(
                old(self),
                r,
                expression(
                    old(self).tokens(),
                    old(self).cursor(),
                    POSTFIX as nat,
                    old(self).log(),
                ),
            ),
        decreases remaining(old(self).tokens(), old(self).cursor()), 4int,
    {
        self.parse_expression(POSTFIX)
    }

    /// An expression whose operators bind at least as tightly as
    /// `min_precedence`: an operand, then fields, indices, a call and binary
    /// operators, each of which takes what stands before it as its left
    /// operand and, if binary, an expression that binds more tightly as its
    /// right one.
    pub fn parse_expression(&mut self, min_precedence: usize) -> (r: (Expr, Span))
        requires
            old(self).wf(),
        ensures
            final(self).parsed_expr(
                old(self),
                r,
                expression(
                    old(self).tokens(),
                    old(self).cursor(),
                    min_precedence as nat,
                    old(self).log(),
                ),
            ),
            well_spanned(expr_tree(r.0, r.1)),
        decreases remaining(old(self).tokens(), old(self).cursor()), 3int,
    {
        proof {
            lemma_expression(
                self.tokens(),
                self.cursor(),
                min_precedence as nat,
                self.log(),
            );
        }
        let ghost ts = self.tokens();
        let ghost start = self.cursor();
        let ghost min = min_precedence as nat;
        let ghost total = expression(ts, start, min, self.log());
        let (operand, operand_span, operand_closed) = self.parse_prefix_expression();
        let mut left = operand;
        let mut left_span = operand_span;
        let mut closed = operand_closed;
        loop
            invariant_except_break
                total.tree == climb(
                    ts,
                    self.cursor(),
                    expr_tree(left, left_span),
                    closed,
                    min,
                    self.log(),
                ).tree,
                total.used == (self.cursor() - start) + climb(
                    ts,
                    self.cursor(),
                    expr_tree(left, left_span),
                    closed,
                    min,
                    self.log(),
                ).used,
                total.log == climb(
                    ts,
                    self.cursor(),
                    expr_tree(left, left_span),
                    closed,
                    min,
                    self.log(),
                ).log,
            invariant
                self.wf(),
                self.tokens() == ts,
                ts == old(self).tokens(),
                start == old(self).cursor(),
                min == min_precedence,
                self.cursor() >= start,
                self.same_printer(old(self)),
                self.origin() == old(self).origin(),
                self.reader().source() == old(self).reader().source(),
                self.reader().offset() == old(self).reader().offset(),
                expr_tree(left, left_span).span == left_span,
            ensures
                total.tree == expr_tree(left, left_span),
                total.used == self.cursor() - start,
                total.log == self.log(),
            decreases remaining(ts, self.cursor()),
        {
            let found = Infix::from_token(self.current);
            if found.is_none() {
                break ;
            }
            let (op, precedence) = found.unwrap();
            if precedence < min_precedence {
                break ;
            }
            let (next, next_span, next_closed, more) = self.parse_infix(
                left,
                left_span,
                closed,
                op,
                precedence,
            );
            left = next;
            left_span = next_span;
            closed = next_closed;
            if !more {
                break ;
            }
        }
        (left, left_span)
    }

    /// One field, index, call or binary operator behind the operand `left`,
    /// where the current token stands for `op` at level `precedence`. The
    /// last flag says that the expression may go on.
    fn parse_infix(
        &mut self,
        left: Expr,
        left_span: Span,
        closed: bool,
        op: Infix,
        precedence: usize,
    ) -> (r: (Expr, Span, bool, bool))
        requires
            old(self).wf(),
            infix(tok(old(self).tokens(), old(self).cursor())) == Some((op, precedence as nat)),
            expr_tree(left, left_span).span == left_span,
        ensures
            ({
                let g = step(
                    old(self).tokens(),
                    old(self).cursor(),
                    expr_tree(left, left_span),
                    closed,
                    op,
                    precedence as nat,
                    old(self).log(),
                );
                &&& final(self).yields(old(self), g.used, g.log)
                &&& expr_tree(r.0, r.1) == g.tree
                &&& g.tree.span == r.1
                &&& r.2 == g.closed
                &&& r.3 == g.more
                &&& g.more ==> g.used >= 1
            }),
        decreases remaining(old(self).tokens(), old(self).cursor()), 2int,
    {
        proof {
            lemma_expr_kind(left, left_span);
        }
        match op {
            Infix::Call => {
                let name = callee(&left);
                if closed || name.is_none() {
                    return (left, left_span, closed, false);
                }
                let symbol = name.unwrap();
                let (args, high) = self.parse_args(Delim::Paren);
                let call = Expr::Call(Call((symbol, left_span), args));
                let span = Span { low: left_span.low, high };
                proof {
                    lemma_expr_tree(call, span);
                }
                (call, span, true, true)
            },
            Infix::Index => {
                if closed || !indexable(&left) {
                    return (left, left_span, closed, false);
                }
                let (args, high) = self.parse_args(Delim::Bracket);
                let index = Expr::Index(Box::new((left, left_span)), args);
                let span = Span { low: left_span.low, high };
                proof {
                    lemma_expr_tree(index, span);
                }
                (index, span, false, true)
            },
            Infix::Field => {
                self.advance_token();
                match self.current {
                    Token::Ident(field) => {
                        let (_, field_span) = self.advance_token();
                        let access = Expr::Field(
                            Box::new((left, left_span)),
                            (field, field_span),
                        );
                        let span = Span { low: left_span.low, high: field_span.high };
                        proof {
                            lemma_expr_tree(access, span);
                        }
                        (access, span, false, true)
                    },
                    _ => {
                        self.unexpected(Expected::Identifier);
                        (left, left_span, closed, false)
                    },
                }
            },
            Infix::Binary(operator) => {
                let op_span = self.span;
                self.advance_token();
                let (value, value_span) = self.parse_expression(precedence + 1);
                let both = Expr::Binary(
                    (operator, op_span),
                    Box::new((left, left_span)),
                    Box::new((value, value_span)),
                );
                let span = Span { low: left_span.low, high: value_span.high };
                proof {
                    lemma_expr_tree(both, span);
                }
                (both, span, closed, true)
            },
        }
    }

    /// An operand: a name, a literal, a prefix operator with its operand,
    /// or an expression in parentheses. The flag says that it is not a
    /// bare name or field, so that no index or call may follow it.
    fn parse_prefix_expression(&mut self) -> (r: (Expr, Span, bool))
        requires
            old(self).wf(),
        ensures
            ({
                let g = prefix(old(self).tokens(), old(self).cursor(), old(self).log());
                &&& final(self).yields(old(self), g.used, g.log)
                &&& expr_tree(r.0, r.1) == g.tree
                &&& g.tree.span == r.1
                &&& r.2 == g.closed
            }),
        decreases remaining(old(self).tokens(), old(self).cursor()), 1int,
    {
        let low = self.span.low;
        match self.current {
            Token::Ident(symbol) => {
                let (_, span) = self.advance_token();
                proof {
                    lemma_expr_tree(Expr::Value(Value::Ident(symbol)), span);
                }
                (Expr::Value(Value::Ident(symbol)), span, false)
            },
            Token::String(symbol) => {
                let (_, span) = self.advance_token();
                proof {
                    lemma_expr_tree(Expr::Value(Value::String(symbol)), span);
                }
                (Expr::Value(Value::String(symbol)), span, false)
            },
            Token::Real(symbol) => {
                proof {
                    reveal(Parser::linked);
                }
                let decoded = decode_number(self.reader.interner().name(symbol), symbol);
                let (_, span) = self.advance_token();
                let value = match decoded {
                    Ok(number) => number,
                    Err(message) => {
                        self.report(span, message);
                        Number::Integer(0)
                    },
                };
                proof {
                    lemma_expr_tree(Expr::Value(Value::Real(value)), span);
                }
                (Expr::Value(Value::Real(value)), span, false)
            },
            Token::OpenDelim(Delim::Paren) => {
                self.advance_token();
                let (expr, expr_span) = self.parse_expression(0);
                self.expect(Token::CloseDelim(Delim::Paren));
                (expr, expr_span, true)
            },
            _ => {
                let name = match self.current {
                    Token::Keyword(k) => if names_value(k) {
                        Some(k.symbol())
                    } else {
                        None
                    },
                    _ => None,
                };
                let operator = prefix_operator(self.current);
                if name.is_some() {
                    let (_, span) = self.advance_token();
                    proof {
                        lemma_expr_tree(Expr::Value(Value::Ident(name.unwrap())), span);
                    }
                    (Expr::Value(Value::Ident(name.unwrap())), span, false)
                } else if operator.is_some() {
                    let (_, op_span) = self.advance_token();
                    let (expr, expr_span) = self.parse_term();
                    let span = Span { low, high: expr_span.high };
                    let signed = Expr::Unary(
                        (operator.unwrap(), op_span),
                        Box::new((expr, expr_span)),
                    );
                    proof {
                        lemma_expr_tree(signed, span);
                    }
                    (signed, span, true)
                } else {
                    self.unexpected(Expected::Expression);
                    proof {
                        lemma_expr_tree(Expr::Error, Span { low, high: low });
                    }
                    (Expr::Error, Span { low, high: low }, false)
                }
            },
        }
    }

    /// The arguments of a call or the indices of an array, in brackets of
    /// the given kind, and where the list ends.
    fn parse_args(&mut self, delim: Delim) -> (r: (Vec<(Expr, Span)>, usize))
        requires
            old(self).wf(),
            tok(old(self).tokens(), old(self).cursor()) == Token::OpenDelim(delim),
        ensures
            ({
                let list = arguments(
                    old(self).tokens(),
                    old(self).cursor() + 1,
                    delim,
                    old(self).log(),
                );
                &&& final(self).yields(old(self), 1 + list.used, list.log)
                &&& expr_trees(r.0@) == list.trees
                &&& r.1 == list.high
            }),
        decreases remaining(old(self).tokens(), old(self).cursor()), 1int,
    {
        let ghost ts = self.tokens();
        let ghost start = self.cursor() + 1;
        let ghost total = arguments(ts, start, delim, self.log());
        let close = Token::CloseDelim(delim);
        self.advance_token();
        let mut args: Vec<(Expr, Span)> = Vec::new();
        assert(expr_trees(args@) =~= Seq::<Tree>::empty());
        loop
            invariant_except_break
                total.trees =~= expr_trees(args@) + arguments(
                    ts,
                    self.cursor(),
                    delim,
                    self.log(),
                ).trees,
                total.used == (self.cursor() - start) + arguments(
                    ts,
                    self.cursor(),
                    delim,
                    self.log(),
                ).used,
                total.log == arguments(ts, self.cursor(), delim, self.log()).log,
                total.high == arguments(ts, self.cursor(), delim, self.log()).high,
            invariant
                self.wf(),
                self.tokens() == ts,
                ts == old(self).tokens(),
                start == old(self).cursor() + 1,
                close == Token::CloseDelim(delim),
                self.cursor() >= start,
                tok(ts, start - 1) != Token::Eof,
                self.same_printer(old(self)),
                self.origin() == old(self).origin(),
                self.reader().source() == old(self).reader().source(),
                self.reader().offset() == old(self).reader().offset(),
            ensures
                total.trees =~= expr_trees(args@),
                total.used == (self.cursor() - start) + ending(
                    ts,
                    self.cursor(),
                    close,
                    self.log(),
                ).used,
                total.log == ending(ts, self.cursor(), close, self.log()).log,
                total.high == ending(ts, self.cursor(), close, self.log()).high,
            decreases remaining(ts, self.cursor()),
        {
            if self.current == close || self.current == Token::Eof {
                break ;
            }
            let (expr, span) = self.parse_expression(0);
            proof {
                lemma_expr_trees_push(args@, (expr, span));
            }
            args.push((expr, span));
            if self.current == Token::Comma {
                self.advance_token();
            } else {
                break ;
            }
        }
        let high;
        if self.current == close {
            high = self.span.high;
            self.advance_token();
        } else {
            high = self.span.low;
            self.unexpected(Expected::Either(close, Token::Comma));
        }
        (args, high)
    }

    /// A statement: a construct, then any semicolons, which its span takes
    /// in.
    fn parse_statement(&mut self) -> (r: (Stmt, Span))
        requires
            old(self).wf(),
        ensures
            final(self).parsed_stmt(
                old(self),
                r,
                statement(old(self).tokens(), old(self).cursor(), old(self).log()),
            ),
        decreases remaining(old(self).tokens(), old(self).cursor()), 7int,
    {
        let ghost ts = self.tokens();
        let ghost start = self.cursor();
        let ghost inner = construct(ts, start, self.log());
        proof {
            lemma_statement_unfold(ts, start, self.log());
        }
        let low = self.span.low;
        let (stmt, span) = self.parse_construct();
        let ghost q = self.cursor();
        let mut high = span.high;
        while self.current == Token::Semicolon
            invariant
                self.wf(),
                self.tokens() == ts,
                q == start + inner.used,
                self.cursor() >= q,
                semicolons(ts, q) == (self.cursor() - q) + semicolons(ts, self.cursor()),
                high == if self.cursor() > q {
                    sp(ts, self.cursor() - 1).high
                } else {
                    span.high
                },
                self.yields(old(self), (self.cursor() - start) as nat, inner.log),
            decreases remaining(ts, self.cursor()),
        {
            high = self.span.high;
            self.advance_token();
        }
        proof {
            reveal(finish);
            lemma_stmt_respan(stmt, span, Span { low, high });
        }
        (stmt, Span { low, high })
    }

    /// The construct that the current token announces, or else an
    /// assignment or a call.
    fn parse_construct(&mut self) -> (r: (Stmt, Span))
        requires
            old(self).wf(),
        ensures
            final(self).parsed_stmt(
                old(self),
                r,
                construct(old(self).tokens(), old(self).cursor(), old(self).log()),
            ),
        decreases remaining(old(self).tokens(), old(self).cursor()), 6int,
    {
        proof {
            reveal(construct);
        }
        match self.current {
            Token::Keyword(Keyword::Var) => self.parse_declare(),
            Token::Keyword(Keyword::GlobalVar) => self.parse_declare(),
            Token::OpenDelim(Delim::Brace) => self.parse_block(),
            Token::Keyword(Keyword::Begin) => self.parse_block(),
            Token::Keyword(Keyword::If) => self.parse_if(),
            Token::Keyword(Keyword::Repeat) => self.parse_repeat(),
            Token::Keyword(Keyword::While) => self.parse_while_or_with(),
            Token::Keyword(Keyword::With) => self.parse_while_or_with(),
            Token::Keyword(Keyword::Do) => self.parse_do(),
            Token::Keyword(Keyword::For) => self.parse_for(),
            Token::Keyword(Keyword::Switch) => self.parse_switch(),
            Token::Keyword(Keyword::Break) => self.parse_jump(),
            Token::Keyword(Keyword::Continue) => self.parse_jump(),
            Token::Keyword(Keyword::Exit) => self.parse_jump(),
            Token::Keyword(Keyword::Return) => self.parse_return(),
            Token::Keyword(Keyword::Case) => self.parse_case(),
            Token::Keyword(Keyword::Default) => self.parse_case(),
            _ => self.parse_assign_or_invoke(),
        }
    }

    /// An assignment, or a call that stands as a statement.
    fn parse_assign_or_invoke(&mut self) -> (r: (Stmt, Span))
        requires
            old(self).wf(),
        ensures
            final(self).parsed_stmt(
                old(self),
                r,
                assign_or_invoke(old(self).tokens(), old(self).cursor(), old(self).log()),
            ),
        decreases remaining(old(self).tokens(), old(self).cursor()), 5int,
    {
        let low = self.span.low;
        let (place, left_span) = self.parse_term();
        proof {
            lemma_expr_kind(place, left_span);
        }
        match place {
            Expr::Call(call) => {
                let stmt = Stmt::Invoke(call);
                proof {
                    lemma_stmt_tree(stmt, left_span);
                }
                return (stmt, left_span);
            },
            Expr::Error => {
                let stmt = Stmt::Error(place);
                proof {
                    lemma_stmt_tree(stmt, left_span);
                }
                return (stmt, left_span);
            },
            _ => {},
        }
        let op_span = self.span;
        let op = match assignment_operator(self.current) {
            Some(op) => op,
            None => {
                self.unexpected(Expected::AssignmentOperator);
                let stmt = Stmt::Error(place);
                proof {
                    lemma_stmt_tree(stmt, left_span);
                }
                return (stmt, left_span);
            },
        };
        self.advance_token();
        let (value, right_span) = self.parse_expression(0);
        let span = Span { low, high: right_span.high };
        let stmt = Stmt::Assign(
            (op, op_span),
            Box::new((place, left_span)),
            Box::new((value, right_span)),
        );
        proof {
            lemma_stmt_tree(stmt, span);
        }
        (stmt, span)
    }

    /// A declaration: `var` or `globalvar`, names with optional commas, and
    /// a semicolon. An initialiser is reported and passed over.
    fn parse_declare(&mut self) -> (r: (Stmt, Span))
        requires
            old(self).wf(),
            tok(old(self).tokens(), old(self).cursor()) == Token::Keyword(Keyword::Var) || tok(
                old(self).tokens(),
                old(self).cursor(),
            ) == Token::Keyword(Keyword::GlobalVar),
        ensures
            final(self).parsed_stmt(
                old(self),
                r,
                started(
                    declare_after(
                        old(self).tokens(),
                        old(self).cursor() + 1,
                        sp(old(self).tokens(), old(self).cursor()).low,
                        if tok(old(self).tokens(), old(self).cursor()) == Token::Keyword(
                            Keyword::Var,
                        ) {
                            Declare::Local
                        } else {
                            Declare::Global
                        },
                        old(self).log(),
                    ),
                ),
            ),
        decreases remaining(old(self).tokens(), old(self).cursor()), 5int,
    {
        let ghost ts = self.tokens();
        let ghost start = self.cursor() + 1;
        let ghost names = declared(ts, start);
        let ghost log = self.log();
        let low = self.span.low;
        let (word, _) = self.advance_token();
        let declare = if word == Token::Keyword(Keyword::Var) {
            Declare::Local
        } else {
            Declare::Global
        };
        let mut idents: Vec<(Symbol, Span)> = Vec::new();
        assert(name_trees(idents@) =~= Seq::<Tree>::empty());
        loop
            invariant_except_break
                names.0 =~= name_trees(idents@) + declared(ts, self.cursor()).0,
                names.1 == (self.cursor() - start) + declared(ts, self.cursor()).1,
            invariant
                self.wf(),
                self.tokens() == ts,
                ts == old(self).tokens(),
                start == old(self).cursor() + 1,
                names == declared(ts, start),
                self.cursor() >= start,
                self.yields(old(self), (self.cursor() - start + 1) as nat, log),
                log == old(self).log(),
            ensures
                names.0 =~= name_trees(idents@),
                names.1 == self.cursor() - start,
            decreases remaining(ts, self.cursor()),
        {
            match self.current {
                Token::Ident(symbol) => {
                    let ghost before = idents@;
                    idents.push((symbol, self.span));
                    assert(name_trees(idents@) =~= name_trees(before) + seq![
                        leaf(Kind::Name(symbol), self.span),
                    ]);
                    self.advance_token();
                    if self.current == Token::Comma {
                        self.advance_token();
                    }
                },
                _ => {
                    break ;
                },
            }
        }
        if self.current == Token::Eq || self.current == Token::ColonEq {
            self.unexpected(Expected::Token(Token::Semicolon));
            self.advance_token();
            self.parse_expression(0);
        }
        let high = if self.current == Token::Semicolon {
            self.span.high
        } else {
            self.span.low
        };
        self.expect(Token::Semicolon);
        let stmt = Stmt::Declare(declare, idents);
        proof {
            lemma_stmt_tree(stmt, Span { low, high });
        }
        (stmt, Span { low, high })
    }

    /// Statements in a row, up to the end of the source or, if `nested`, to
    /// the token that closes a block; and where the last one ends. What
    /// follows an invalid statement is skipped up to where a statement may
    /// begin, and a token at which no statement begins is passed over.
    fn parse_items(&mut self, nested: bool) -> (r: (Vec<(Stmt, Span)>, usize))
        requires
            old(self).wf(),
        ensures
            ({
                let list = items(old(self).tokens(), old(self).cursor(), nested, old(self).log());
                &&& final(self).yields(old(self), list.used, list.log)
                &&& stmt_trees(r.0@) == list.trees
                &&& r.1 == list.high
                &&& ends_items(tok(old(self).tokens(), old(self).cursor() + list.used), nested)
            }),
        decreases remaining(old(self).tokens(), old(self).cursor()), 8int,
    {
        let ghost ts = self.tokens();
        let ghost start = self.cursor();
        let ghost total = items(ts, start, nested, self.log());
        let mut stmts: Vec<(Stmt, Span)> = Vec::new();
        let mut high = self.span.low;
        assert(stmt_trees(stmts@) =~= Seq::<Tree>::empty());
        while !(self.current == Token::Eof || (nested && (self.current == Token::CloseDelim(
            Delim::Brace,
        ) || self.current == Token::Keyword(Keyword::End))))
            invariant
                self.wf(),
                self.tokens() == ts,
                ts == old(self).tokens(),
                start == old(self).cursor(),
                self.cursor() >= start,
                self.same_printer(old(self)),
                self.origin() == old(self).origin(),
                self.reader().source() == old(self).reader().source(),
                self.reader().offset() == old(self).reader().offset(),
                total.trees =~= stmt_trees(stmts@) + items(
                    ts,
                    self.cursor(),
                    nested,
                    self.log(),
                ).trees,
                total.used == (self.cursor() - start) + items(
                    ts,
                    self.cursor(),
                    nested,
                    self.log(),
                ).used,
                total.log == items(ts, self.cursor(), nested, self.log()).log,
                total.high == if items(ts, self.cursor(), nested, self.log()).trees.len() > 0 {
                    items(ts, self.cursor(), nested, self.log()).high
                } else {
                    high
                },
            decreases remaining(ts, self.cursor()),
        {
            let ghost here = self.cursor();
            let begin = self.span.low;
            let (stmt, span) = self.parse_statement();
            proof {
                lemma_stmt_respan(stmt, span, span);
            }
            if is_error(&stmt) {
                self.skip_to_statement();
            }
            proof {
                lemma_token(ts, here);
                lemma_order(ts, here, self.cursor());
                if self.cursor() > here {
                    lemma_order(ts, here, here + 1);
                    lemma_order(ts, here + 1, self.cursor());
                }
            }
            if self.span.low == begin {
                self.advance_token();
            }
            proof {
                lemma_stmt_trees_push(stmts@, (stmt, span));
            }
            stmts.push((stmt, span));
            high = span.high;
        }
        (stmts, high)
    }

    /// What stands in the brackets of a block, from its opening token to the
    /// token that closes it: the statements, and the span of the block.
    /// Where the source ends before, that is reported.
    fn parse_braces(&mut self) -> (r: (Vec<(Stmt, Span)>, Span))
        requires
            old(self).wf(),
        ensures
            final(self).parsed_stmt(
                old(self),
                (Stmt::Block(r.0), r.1),
                started(
                    block_after(
                        old(self).tokens(),
                        old(self).cursor() + 1,
                        sp(old(self).tokens(), old(self).cursor()).low,
                        old(self).log(),
                    ),
                ),
            ),
        decreases remaining(old(self).tokens(), old(self).cursor()), 4int,
    {
        let low = self.span.low;
        let (opening, _) = self.advance_token();
        let stmts = if opening == Token::Eof {
            let none: Vec<(Stmt, Span)> = Vec::new();
            assert(stmt_trees(none@) =~= Seq::<Tree>::empty());
            none
        } else {
            self.parse_items(true).0
        };
        let high;
        if self.current == Token::Eof {
            self.unexpected(Expected::Token(Token::CloseDelim(Delim::Brace)));
            high = self.span.low;
        } else {
            let (_, span) = self.advance_token();
            high = span.high;
        }
        proof {
            lemma_stmt_tree(Stmt::Block(stmts), Span { low, high });
        }
        (stmts, Span { low, high })
    }

    /// A block: statements between `{` or `begin` and `}` or `end`.
    fn parse_block(&mut self) -> (r: (Stmt, Span))
        requires
            old(self).wf(),
        ensures
            final(self).parsed_stmt(
                old(self),
                r,
                started(
                    block_after(
                        old(self).tokens(),
                        old(self).cursor() + 1,
                        sp(old(self).tokens(), old(self).cursor()).low,
                        old(self).log(),
                    ),
                ),
            ),
        decreases remaining(old(self).tokens(), old(self).cursor()), 5int,
    {
        let (stmts, span) = self.parse_braces();
        (Stmt::Block(stmts), span)
    }

    /// `if`, a condition, an optional `then`, a statement, and optionally
    /// `else` and a statement.
    fn parse_if(&mut self) -> (r: (Stmt, Span))
        requires
            old(self).wf(),
            tok(old(self).tokens(), old(self).cursor()) == Token::Keyword(Keyword::If),
        ensures
            final(self).parsed_stmt(
                old(self),
                r,
                started(
                    if_after(
                        old(self).tokens(),
                        old(self).cursor() + 1,
                        sp(old(self).tokens(), old(self).cursor()).low,
                        old(self).log(),
                    ),
                ),
            ),
        decreases remaining(old(self).tokens(), old(self).cursor()), 5int,
    {
        let ghost ts = self.tokens();
        let ghost p = self.cursor() + 1;
        let ghost cond = expression(ts, p, 0, self.log());
        let ghost q = p + cond.used;
        let low = self.span.low;
        self.advance_token();
        let (expr, expr_span) = self.parse_expression(0);
        assert(self.cursor() == q && self.log() == cond.log);
        let ghost then: nat = if self.current == Token::Keyword(Keyword::Then) {
            1
        } else {
            0
        };
        if self.current == Token::Keyword(Keyword::Then) {
            self.advance_token();
        }
        let ghost yes = statement(ts, q + then, cond.log);
        assert(self.cursor() == q + then && self.log() == cond.log);
        let (true_branch, true_span) = self.parse_statement();
        let ghost r = q + then + yes.used;
        assert(self.cursor() == r && self.log() == yes.log);
        assert(self.tokens() == ts && self.same_printer(old(self)));
        if self.current == Token::Keyword(Keyword::Else) {
            self.advance_token();
            let ghost no = statement(ts, r + 1, yes.log);
            let (false_branch, false_span) = self.parse_statement();
            assert(self.cursor() == r + 1 + no.used && self.log() == no.log);
            let span = Span { low, high: false_span.high };
            let stmt = Stmt::If(
                Box::new((expr, expr_span)),
                Box::new((true_branch, true_span)),
                Some(Box::new((false_branch, false_span))),
            );
            proof {
                lemma_stmt_tree(stmt, span);
            }
            (stmt, span)
        } else {
            let span = Span { low, high: true_span.high };
            let stmt = Stmt::If(
                Box::new((expr, expr_span)),
                Box::new((true_branch, true_span)),
                None,
            );
            proof {
                lemma_stmt_tree(stmt, span);
            }
            (stmt, span)
        }
    }

    /// `repeat`, a count and a statement.
    fn parse_repeat(&mut self) -> (r: (Stmt, Span))
        requires
            old(self).wf(),
            tok(old(self).tokens(), old(self).cursor()) == Token::Keyword(Keyword::Repeat),
        ensures
            final(self).parsed_stmt(
                old(self),
                r,
                started(
                    repeat_after(
                        old(self).tokens(),
                        old(self).cursor() + 1,
                        sp(old(self).tokens(), old(self).cursor()).low,
                        old(self).log(),
                    ),
                ),
            ),
        decreases remaining(old(self).tokens(), old(self).cursor()), 5int,
    {
        let low = self.span.low;
        self.advance_token();
        let (count, count_span) = self.parse_expression(0);
        let (body, body_span) = self.parse_statement();
        let span = Span { low, high: body_span.high };
        let stmt = Stmt::Repeat(Box::new((count, count_span)), Box::new((body, body_span)));
        proof {
            lemma_stmt_tree(stmt, span);
        }
        (stmt, span)
    }

    /// `while` or `with`, an expression, an optional `do` and a statement.
    fn parse_while_or_with(&mut self) -> (r: (Stmt, Span))
        requires
            old(self).wf(),
            tok(old(self).tokens(), old(self).cursor()) == Token::Keyword(Keyword::While) || tok(
                old(self).tokens(),
                old(self).cursor(),
            ) == Token::Keyword(Keyword::With),
        ensures
            final(self).parsed_stmt(
                old(self),
                r,
                started(
                    while_after(
                        old(self).tokens(),
                        old(self).cursor() + 1,
                        sp(old(self).tokens(), old(self).cursor()).low,
                        if tok(old(self).tokens(), old(self).cursor()) == Token::Keyword(
                            Keyword::While,
                        ) {
                            Kind::While
                        } else {
                            Kind::With
                        },
                        old(self).log(),
                    ),
                ),
            ),
        decreases remaining(old(self).tokens(), old(self).cursor()), 5int,
    {
        let low = self.span.low;
        let (word, _) = self.advance_token();
        let (expr, expr_span) = self.parse_expression(0);
        if self.current == Token::Keyword(Keyword::Do) {
            self.advance_token();
        }
        let (body, body_span) = self.parse_statement();
        let span = Span { low, high: body_span.high };
        let stmt = if word == Token::Keyword(Keyword::While) {
            Stmt::While(Box::new((expr, expr_span)), Box::new((body, body_span)))
        } else {
            Stmt::With(Box::new((expr, expr_span)), Box::new((body, body_span)))
        };
        proof {
            lemma_stmt_tree(stmt, span);
        }
        (stmt, span)
    }

    /// `do`, a statement, `until` and a condition.
    fn parse_do(&mut self) -> (r: (Stmt, Span))
        requires
            old(self).wf(),
            tok(old(self).tokens(), old(self).cursor()) == Token::Keyword(Keyword::Do),
        ensures
            final(self).parsed_stmt(
                old(self),
                r,
                started(
                    do_after(
                        old(self).tokens(),
                        old(self).cursor() + 1,
                        sp(old(self).tokens(), old(self).cursor()).low,
                        old(self).log(),
                    ),
                ),
            ),
        decreases remaining(old(self).tokens(), old(self).cursor()), 5int,
    {
        let low = self.span.low;
        self.advance_token();
        let (body, body_span) = self.parse_statement();
        self.expect(Token::Keyword(Keyword::Until));
        let (expr, expr_span) = self.parse_expression(0);
        let span = Span { low, high: expr_span.high };
        let stmt = Stmt::Do(Box::new((body, body_span)), Box::new((expr, expr_span)));
        proof {
            lemma_stmt_tree(stmt, span);
        }
        (stmt, span)
    }

    /// `for`; in parentheses a statement, a condition with an optional
    /// semicolon and a statement; then the body.
    fn parse_for(&mut self) -> (r: (Stmt, Span))
        requires
            old(self).wf(),
            tok(old(self).tokens(), old(self).cursor()) == Token::Keyword(Keyword::For),
        ensures
            final(self).parsed_stmt(
                old(self),
                r,
                started(
                    for_after(
                        old(self).tokens(),
                        old(self).cursor() + 1,
                        sp(old(self).tokens(), old(self).cursor()).low,
                        old(self).log(),
                    ),
                ),
            ),
        decreases remaining(old(self).tokens(), old(self).cursor()), 5int,
    {
        let ghost ts = self.tokens();
        let ghost p = self.cursor() + 1;
        let ghost open = expect(ts, p, Token::OpenDelim(Delim::Paren), self.log());
        let ghost first = statement(ts, p + open.0, open.1);
        let ghost q = p + open.0 + first.used;
        let ghost test = expression(ts, q, 0, first.log);
        let low = self.span.low;
        self.advance_token();
        self.expect(Token::OpenDelim(Delim::Paren));
        assert(self.cursor() == p + open.0 && self.log() == open.1);
        let (init, init_span) = self.parse_statement();
        assert(self.cursor() == q && self.log() == first.log);
        let (cond, cond_span) = self.parse_expression(0);
        assert(self.cursor() == q + test.used && self.log() == test.log);
        let ghost semi: nat = if self.current == Token::Semicolon {
            1
        } else {
            0
        };
        if self.current == Token::Semicolon {
            self.advance_token();
        }
        let ghost r = q + test.used + semi;
        let ghost step = statement(ts, r, test.log);
        assert(self.cursor() == r && self.log() == test.log);
        let (next, next_span) = self.parse_statement();
        assert(self.cursor() == r + step.used && self.log() == step.log);
        let ghost close = expect(ts, r + step.used, Token::CloseDelim(Delim::Paren), step.log);
        self.expect(Token::CloseDelim(Delim::Paren));
        let ghost b = r + step.used + close.0;
        let ghost last = statement(ts, b, close.1);
        assert(self.cursor() == b && self.log() == close.1);
        let (body, body_span) = self.parse_statement();
        assert(self.cursor() == b + last.used && self.log() == last.log);
        assert(self.tokens() == ts && self.same_printer(old(self)));
        let span = Span { low, high: body_span.high };
        let stmt = Stmt::For(
            Box::new((init, init_span)),
            Box::new((cond, cond_span)),
            Box::new((next, next_span)),
            Box::new((body, body_span)),
        );
        proof {
            lemma_stmt_tree(stmt, span);
        }
        (stmt, span)
    }

    /// `switch`, the value switched on and a block. What stands in place of
    /// the block's opening token is reported and taken for it.
    fn parse_switch(&mut self) -> (r: (Stmt, Span))
        requires
            old(self).wf(),
            tok(old(self).tokens(), old(self).cursor()) == Token::Keyword(Keyword::Switch),
        ensures
            final(self).parsed_stmt(
                old(self),
                r,
                started(
                    switch_after(
                        old(self).tokens(),
                        old(self).cursor() + 1,
                        sp(old(self).tokens(), old(self).cursor()).low,
                        old(self).log(),
                    ),
                ),
            ),
        decreases remaining(old(self).tokens(), old(self).cursor()), 5int,
    {
        let low = self.span.low;
        self.advance_token();
        let (expr, expr_span) = self.parse_expression(0);
        if self.current != Token::OpenDelim(Delim::Brace) && self.current != Token::Keyword(
            Keyword::Begin,
        ) {
            self.unexpected(Expected::Token(Token::OpenDelim(Delim::Brace)));
        }
        let (body, body_span) = self.parse_braces();
        let span = Span { low, high: body_span.high };
        proof {
            lemma_stmt_tree(Stmt::Block(body), body_span);
        }
        let stmt = Stmt::Switch(Box::new((expr, expr_span)), body);
        proof {
            lemma_stmt_tree(stmt, span);
        }
        (stmt, span)
    }

    /// `break`, `continue` or `exit`.
    fn parse_jump(&mut self) -> (r: (Stmt, Span))
        requires
            old(self).wf(),
            tok(old(self).tokens(), old(self).cursor()) == Token::Keyword(Keyword::Break) || tok(
                old(self).tokens(),
                old(self).cursor(),
            ) == Token::Keyword(Keyword::Continue) || tok(old(self).tokens(), old(self).cursor())
                == Token::Keyword(Keyword::Exit),
        ensures
            final(self).parsed_stmt(
                old(self),
                r,
                construct(old(self).tokens(), old(self).cursor(), old(self).log()),
            ),
        decreases remaining(old(self).tokens(), old(self).cursor()), 5int,
    {
        proof {
            reveal(construct);
        }
        let (word, span) = self.advance_token();
        let jump = if word == Token::Keyword(Keyword::Break) {
            Jump::Break
        } else if word == Token::Keyword(Keyword::Continue) {
            Jump::Continue
        } else {
            Jump::Exit
        };
        proof {
            lemma_stmt_tree(Stmt::Jump(jump), span);
        }
        (Stmt::Jump(jump), span)
    }

    /// `return` and the value.
    fn parse_return(&mut self) -> (r: (Stmt, Span))
        requires
            old(self).wf(),
            tok(old(self).tokens(), old(self).cursor()) == Token::Keyword(Keyword::Return),
        ensures
            final(self).parsed_stmt(
                old(self),
                r,
                started(
                    return_after(
                        old(self).tokens(),
                        old(self).cursor() + 1,
                        sp(old(self).tokens(), old(self).cursor()).low,
                        old(self).log(),
                    ),
                ),
            ),
        decreases remaining(old(self).tokens(), old(self).cursor()), 5int,
    {
        let low = self.span.low;
        self.advance_token();
        let (expr, expr_span) = self.parse_expression(0);
        let span = Span { low, high: expr_span.high };
        let stmt = Stmt::Return(Box::new((expr, expr_span)));
        proof {
            lemma_stmt_tree(stmt, span);
        }
        (stmt, span)
    }

    /// `case` with a value, or `default`; then a colon.
    fn parse_case(&mut self) -> (r: (Stmt, Span))
        requires
            old(self).wf(),
            tok(old(self).tokens(), old(self).cursor()) == Token::Keyword(Keyword::Case) || tok(
                old(self).tokens(),
                old(self).cursor(),
            ) == Token::Keyword(Keyword::Default),
        ensures
            final(self).parsed_stmt(
                old(self),
                r,
                started(
                    case_after(
                        old(self).tokens(),
                        old(self).cursor() + 1,
                        sp(old(self).tokens(), old(self).cursor()).low,
                        tok(old(self).tokens(), old(self).cursor()) == Token::Keyword(
                            Keyword::Case,
                        ),
                        old(self).log(),
                    ),
                ),
            ),
        decreases remaining(old(self).tokens(), old(self).cursor()), 5int,
    {
        let low = self.span.low;
        let (word, _) = self.advance_token();
        let expr = if word == Token::Keyword(Keyword::Case) {
            let (value, value_span) = self.parse_expression(0);
            Some(Box::new((value, value_span)))
        } else {
            None
        };
        let high = if self.current == Token::Colon {
            self.span.high
        } else {
            self.span.low
        };
        self.expect(Token::Colon);
        let stmt = Stmt::Case(expr);
        proof {
            lemma_stmt_tree(stmt, Span { low, high });
        }
        (stmt, Span { low, high })
    }

    /// A program: a block if the source begins with `{`, else statements up
    /// to the end of the source, which count as a block. Behind a block,
    /// what stands before the end of the source is reported.
    pub fn parse_program(&mut self) -> (r: (Stmt, Span))
        requires
            old(self).wf(),
        ensures
            final(self).parsed_stmt(
                old(self),
                r,
                program(old(self).tokens(), old(self).cursor(), old(self).log()),
            ),
            well_spanned(stmt_tree(r.0, r.1)),
    {
        proof {
            reveal(finish);
            lemma_program(self.tokens(), self.cursor(), self.log());
        }
        let low = self.span.low;
        let (stmt, span) = if self.current == Token::OpenDelim(Delim::Brace) {
            self.parse_statement()
        } else {
            let (stmts, high) = self.parse_items(false);
            let block = Stmt::Block(stmts);
            proof {
                lemma_stmt_tree(block, Span { low, high });
            }
            (block, Span { low, high })
        };
        if self.current != Token::Eof {
            self.unexpected(Expected::Token(Token::Eof));
        }
        (stmt, Span { low, high: span.high })
    }
}

} // verus!
