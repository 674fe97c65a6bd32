//! The tokens of the language and how each is spelled.

use vstd::prelude::*;
use vstd::string::*;
use crate::symbol::{bytes_to_vec, Interner, Keyword, Symbol};

verus! {

/// The three kinds of bracket.
#[derive(Clone, Copy, Debug, PartialEq, Eq, Hash, Structural)]
pub enum Delim {
    Brace,
    Paren,
    Bracket,
}

/// The operators that have a compound assignment form.
#[derive(Clone, Copy, Debug, PartialEq, Eq, Hash, Structural)]
pub enum BinOp {
    Plus,
    Minus,
    Star,
    Slash,
    Ampersand,
    Pipe,
    Caret,
}

/// A token. An identifier carries the handle of its name, a numeric literal
/// that of its text, a string literal that of its contents.
#[derive(Clone, Copy, Debug, PartialEq, Eq, Hash, Structural)]
pub enum Token {
    Ident(Symbol),
    Keyword(Keyword),
    Real(Symbol),
    String(Symbol),
    Dot,
    Comma,
    Semicolon,
    Colon,
    ColonEq,
    Eq,
    EqEq,
    Ne,
    LtGt,
    Lt,
    Le,
    Gt,
    Ge,
    Shl,
    Shr,
    And,
    Or,
    Xor,
    Bang,
    Tilde,
    BinOp(BinOp),
    BinOpEq(BinOp),
    OpenDelim(Delim),
    CloseDelim(Delim),
    /// A string literal whose closing quote is missing.
    Unterminated,
    /// A byte that begins no token.
    Unknown(u8),
    Eof,
}

/// The code of the double quote.
pub const DOUBLE_QUOTE: u8 = 34;

/// The code of the single quote.
pub const SINGLE_QUOTE: u8 = 39;

/// The name that a handle stands for in a table of names; empty where the
/// table does not hold the handle.
pub open spec fn name_of(names: Seq<Seq<u8>>, symbol: Symbol) -> Seq<u8> {
    if symbol.index < names.len() {
        names[symbol.index as int]
    } else {
        Seq::empty()
    }
}

/// The quote that can enclose `contents`: single where they hold a double
/// quote, else double.
pub open spec fn quote_for(contents: Seq<u8>) -> u8 {
    if contents.contains(DOUBLE_QUOTE) {
        SINGLE_QUOTE
    } else {
        DOUBLE_QUOTE
    }
}

/// A string literal with the given contents.
pub open spec fn quoted(contents: Seq<u8>) -> Seq<u8> {
    seq![quote_for(contents)] + contents + seq![quote_for(contents)]
}

impl BinOp {
    pub open spec fn spelling(self) -> &'static str {
        match self {
            BinOp::Plus => "+",
            BinOp::Minus => "-",
            BinOp::Star => "*",
            BinOp::Slash => "/",
            BinOp::Ampersand => "&",
            BinOp::Pipe => "|",
            BinOp::Caret => "^",
        }
    }

    pub open spec fn assign_spelling(self) -> &'static str {
        match self {
            BinOp::Plus => "+=",
            BinOp::Minus => "-=",
            BinOp::Star => "*=",
            BinOp::Slash => "/=",
            BinOp::Ampersand => "&=",
            BinOp::Pipe => "|=",
            BinOp::Caret => "^=",
        }
    }
}

impl Token {
    /// How a token without a payload is spelled; how the others are named in
    /// a message when nothing better is known.
    pub open spec fn spelling(self) -> &'static str {
        match self {
            Token::Ident(_) => "identifier",
            Token::Keyword(k) => k.spelling(),
            Token::Real(_) => "number",
            Token::String(_) => "string",
            Token::Dot => ".",
            Token::Comma => ",",
            Token::Semicolon => ";",
            Token::Colon => ":",
            Token::ColonEq => ":=",
            Token::Eq => "=",
            Token::EqEq => "==",
            Token::Ne => "!=",
            Token::LtGt => "<>",
            Token::Lt => "<",
            Token::Le => "<=",
            Token::Gt => ">",
            Token::Ge => ">=",
            Token::Shl => "<<",
            Token::Shr => ">>",
            Token::And => "&&",
            Token::Or => "||",
            Token::Xor => "^^",
            Token::Bang => "!",
            Token::Tilde => "~",
            Token::BinOp(op) => op.spelling(),
            Token::BinOpEq(op) => op.assign_spelling(),
            Token::OpenDelim(Delim::Brace) => "{",
            Token::OpenDelim(Delim::Paren) => "(",
            Token::OpenDelim(Delim::Bracket) => "[",
            Token::CloseDelim(Delim::Brace) => "}",
            Token::CloseDelim(Delim::Paren) => ")",
            Token::CloseDelim(Delim::Bracket) => "]",
            Token::Unterminated => "unterminated string",
            Token::Unknown(_) => "unknown character",
            Token::Eof => "end of input",
        }
    }

    /// The text of a token: an identifier's name, a numeric literal's text, a
    /// string literal in quotes, an unknown byte itself, and the spelling of
    /// every other token.
    pub open spec fn spec_text(self, names: Seq<Seq<u8>>) -> Seq<u8> {
        match self {
            Token::Ident(s) => name_of(names, s),
            Token::Real(s) => name_of(names, s),
            Token::String(s) => quoted(name_of(names, s)),
            Token::Unknown(b) => seq![b],
            _ => self.spelling().spec_bytes(),
        }
    }

    /// Whether the interner holds the handle that the token carries, if any.
    pub open spec fn known(self, names: Seq<Seq<u8>>) -> bool {
        match self {
            Token::Ident(s) => s.index < names.len(),
            Token::Real(s) => s.index < names.len(),
            Token::String(s) => s.index < names.len(),
            _ => true,
        }
    }

    fn fixed(self) -> (r: &'static str)
        ensures
            r == self.spelling(),
    {
        match self {
            Token::Ident(_) => "identifier",
            Token::Keyword(k) => match k {
                Keyword::Var => "var",
                Keyword::GlobalVar => "globalvar",
                Keyword::Begin => "begin",
                Keyword::End => "end",
                Keyword::If => "if",
                Keyword::Then => "then",
                Keyword::Else => "else",
                Keyword::Repeat => "repeat",
                Keyword::While => "while",
                Keyword::With => "with",
                Keyword::Do => "do",
                Keyword::Until => "until",
                Keyword::For => "for",
                Keyword::Switch => "switch",
                Keyword::Case => "case",
                Keyword::Default => "default",
                Keyword::Break => "break",
                Keyword::Continue => "continue",
                Keyword::Exit => "exit",
                Keyword::Return => "return",
                Keyword::True => "true",
                Keyword::False => "false",
                Keyword::Self_ => "self",
                Keyword::Other => "other",
                Keyword::All => "all",
                Keyword::NoOne => "noone",
                Keyword::Global => "global",
                Keyword::Local => "local",
                Keyword::Div => "div",
                Keyword::Mod => "mod",
                Keyword::And => "and",
                Keyword::Or => "or",
                Keyword::Xor => "xor",
                Keyword::Not => "not",
            },
            Token::Real(_) => "number",
            Token::String(_) => "string",
            Token::Dot => ".",
            Token::Comma => ",",
            Token::Semicolon => ";",
            Token::Colon => ":",
            Token::ColonEq => ":=",
            Token::Eq => "=",
            Token::EqEq => "==",
            Token::Ne => "!=",
            Token::LtGt => "<>",
            Token::Lt => "<",
            Token::Le => "<=",
            Token::Gt => ">",
            Token::Ge => ">=",
            Token::Shl => "<<",
            Token::Shr => ">>",
            Token::And => "&&",
            Token::Or => "||",
            Token::Xor => "^^",
            Token::Bang => "!",
            Token::Tilde => "~",
            Token::BinOp(op) => match op {
                BinOp::Plus => "+",
                BinOp::Minus => "-",
                BinOp::Star => "*",
                BinOp::Slash => "/",
                BinOp::Ampersand => "&",
                BinOp::Pipe => "|",
                BinOp::Caret => "^",
            },
            Token::BinOpEq(op) => match op {
                BinOp::Plus => "+=",
                BinOp::Minus => "-=",
                BinOp::Star => "*=",
                BinOp::Slash => "/=",
                BinOp::Ampersand => "&=",
                BinOp::Pipe => "|=",
                BinOp::Caret => "^=",
            },
            Token::OpenDelim(Delim::Brace) => "{",
            Token::OpenDelim(Delim::Paren) => "(",
            Token::OpenDelim(Delim::Bracket) => "[",
            Token::CloseDelim(Delim::Brace) => "}",
            Token::CloseDelim(Delim::Paren) => ")",
            Token::CloseDelim(Delim::Bracket) => "]",
            Token::Unterminated => "unterminated string",
            Token::Unknown(_) => "unknown character",
            Token::Eof => "end of input",
        }
    }

    /// The text of the token, with the names that `interner` holds.
    pub fn text(self, interner: &Interner) -> (r: Vec<u8>)
        ensures
            r@ == self.spec_text(interner@),
    {
        match self {
            Token::Ident(s) => symbol_text(interner, s),
            Token::Real(s) => symbol_text(interner, s),
            Token::String(s) => {
                let contents = symbol_text(interner, s);
                let quote = quote_of(contents.as_slice());
                let mut r: Vec<u8> = Vec::new();
                r.push(quote);
                append(&mut r, contents.as_slice());
                r.push(quote);
                assert(r@ =~= quoted(contents@));
                r
            },
            Token::Unknown(b) => {
                let mut r: Vec<u8> = Vec::new();
                r.push(b);
                assert(r@ =~= seq![b]);
                r
            },
            _ => bytes_to_vec(self.fixed().as_bytes()),
        }
    }
}

/// The name that a handle stands for; empty where the interner does not hold
/// the handle.
pub fn symbol_text(interner: &Interner, symbol: Symbol) -> (r: Vec<u8>)
    ensures
        r@ == name_of(interner@, symbol),
{
    if symbol.index < interner.len() {
        bytes_to_vec(interner.name(symbol))
    } else {
        Vec::new()
    }
}

/// The quote that can enclose `contents`.
pub fn quote_of(contents: &[u8]) -> (q: u8)
    ensures
        q == quote_for(contents@),
{
    let mut i: usize = 0;
    while i < contents.len()
        invariant
            i <= contents@.len(),
            forall|j: int| 0 <= j < i ==> contents@[j] != DOUBLE_QUOTE,
        decreases contents@.len() - i,
    {
        if contents[i] == DOUBLE_QUOTE {
            assert(contents@.contains(DOUBLE_QUOTE));
            return SINGLE_QUOTE;
        }
        i = i + 1;
    }
    DOUBLE_QUOTE
}

/// Appends the bytes of `tail` to `out`.
pub fn append(out: &mut Vec<u8>, tail: &[u8])
    ensures
        final(out)@ == old(out)@ + tail@,
{
    let mut i: usize = 0;
    while i < tail.len()
        invariant
            i <= tail@.len(),
            out@ == old(out)@ + tail@.subrange(0, i as int),
        decreases tail@.len() - i,
    {
        out.push(tail[i]);
        assert(out@ =~= old(out)@ + tail@.subrange(0, i + 1));
        i = i + 1;
    }
    assert(out@ =~= old(out)@ + tail@);
}

} // verus!
